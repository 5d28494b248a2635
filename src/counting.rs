use vstd::prelude::*;

use crate::trie::{
    branch, child_in, continuation, is_prefix_path, label, lemma_child_in_at, node_line,
    render_children, render_node, sorted_children, tree_text, Node,
};
use crate::token::{lemma_text_lt_asymmetric, lemma_text_lt_irreflexive, text_lt, Token};

verus! {

broadcast use vstd::seq_lib::group_to_multiset_ensures;

/// How many of the sequences of texts in `seqs` have `p` as a non-empty prefix.
pub open spec fn tally(seqs: Seq<Seq<Seq<char>>>, p: Seq<Seq<char>>) -> nat
    decreases seqs.len(),
{
    if seqs.len() == 0 {
        0
    } else {
        tally(seqs.drop_last(), p) + if is_prefix_path(p, seqs.last()) {
            1nat
        } else {
            0nat
        }
    }
}

/// The trie is what inserting the sequences `seqs` into an empty trie gives:
/// a node for each non-empty prefix of one of them and for nothing else, with
/// the number of sequences that share the prefix as its count.
pub open spec fn holds_exactly<T: Token>(t: Node<T>, seqs: Seq<Seq<Seq<char>>>) -> bool {
    &&& t.wf()
    &&& t.element is None
    &&& t.count == 0
    &&& forall|p: Seq<Seq<char>>|
        p.len() > 0 ==> #[trigger] t.count_at(p) == if tally(seqs, p) > 0 {
            Some(tally(seqs, p))
        } else {
            None
        }
}

/// A new trie holds no sequence.
pub proof fn lemma_new_holds_nothing<T: Token>(t: Node<T>)
    requires
        t.wf(),
        t.element is None,
        t.count == 0,
        t.children@.len() == 0,
    ensures
        holds_exactly(t, Seq::empty()),
{
    assert forall|p: Seq<Seq<char>>| p.len() > 0 implies #[trigger] t.count_at(p) == if tally(
        Seq::empty(),
        p,
    ) > 0 {
        Some(tally(Seq::<Seq<Seq<char>>>::empty(), p))
    } else {
        None
    } by {
        assert(child_in(t.children@, p[0]) is None);
    }
}

/// Inserting one more sequence into a trie that holds `seqs` gives a trie
/// that holds `seqs` and that sequence.
pub proof fn lemma_insert_holds<T: Token>(
    before: Node<T>,
    after: Node<T>,
    seqs: Seq<Seq<Seq<char>>>,
    s: Seq<Seq<char>>,
)
    requires
        holds_exactly(before, seqs),
        after.wf(),
        after.element == before.element,
        after.count == before.count,
        forall|p: Seq<Seq<char>>| #[trigger] after.count_at(p) == before.count_after(s, p),
    ensures
        holds_exactly(after, seqs.push(s)),
{
    assert forall|p: Seq<Seq<char>>| p.len() > 0 implies #[trigger] after.count_at(p) == if tally(
        seqs.push(s),
        p,
    ) > 0 {
        Some(tally(seqs.push(s), p))
    } else {
        None
    } by {
        assert(seqs.push(s).drop_last() =~= seqs);
    }
}

proof fn lemma_tally_repeated(s: Seq<Seq<char>>, n: nat, p: Seq<Seq<char>>)
    ensures
        tally(Seq::new(n, |i: int| s), p) == if is_prefix_path(p, s) {
            n
        } else {
            0
        },
    decreases n,
{
    if n > 0 {
        assert(Seq::new(n, |i: int| s).drop_last() =~= Seq::new((n - 1) as nat, |i: int| s));
        lemma_tally_repeated(s, (n - 1) as nat, p);
    }
}

/// Inserting the same sequence `n` times gives every node along it the count `n`.
pub proof fn lemma_repeated_insertions<T: Token>(t: Node<T>, s: Seq<Seq<char>>, n: nat)
    requires
        holds_exactly(t, Seq::new(n, |i: int| s)),
        n > 0,
    ensures
        forall|p: Seq<Seq<char>>| is_prefix_path(p, s) ==> #[trigger] t.count_at(p) == Some(n),
{
    assert forall|p: Seq<Seq<char>>| is_prefix_path(p, s) implies #[trigger] t.count_at(p) == Some(
        n,
    ) by {
        lemma_tally_repeated(s, n, p);
    }
}

/// Inserting `[a, b, c]` and then `[a, b, d]`, with `c` and `d` apart, shares
/// the nodes of `a` and `a, b` (count two each) and gives `b` two children,
/// `c` and `d` (count one each); the trie has no other node.
pub proof fn lemma_shared_prefix<T: Token>(
    t: Node<T>,
    a: Seq<char>,
    b: Seq<char>,
    c: Seq<char>,
    d: Seq<char>,
)
    requires
        holds_exactly(t, seq![seq![a, b, c], seq![a, b, d]]),
        c != d,
    ensures
        t.count_at(seq![a]) == Some(2nat),
        t.count_at(seq![a, b]) == Some(2nat),
        t.count_at(seq![a, b, c]) == Some(1nat),
        t.count_at(seq![a, b, d]) == Some(1nat),
        forall|p: Seq<Seq<char>>|
            p.len() > 0 ==> (#[trigger] t.count_at(p) is Some <==> (p == seq![a] || p == seq![a, b]
                || p == seq![a, b, c] || p == seq![a, b, d])),
{
    let abc = seq![a, b, c];
    let abd = seq![a, b, d];
    let seqs = seq![abc, abd];
    reveal_with_fuel(tally, 3);
    assert(seqs.drop_last() =~= seq![abc]);
    assert(seq![abc].drop_last() =~= Seq::<Seq<Seq<char>>>::empty());
    assert(abc.take(1) =~= seq![a]);
    assert(abd.take(1) =~= seq![a]);
    assert(abc.take(2) =~= seq![a, b]);
    assert(abd.take(2) =~= seq![a, b]);
    assert(abc.take(3) =~= abc);
    assert(abd.take(3) =~= abd);
    assert(abc[2] != abd[2]);
    assert(abc != abd);
    assert(t.count_at(seq![a]) == Some(tally(seqs, seq![a])));
    assert(t.count_at(seq![a, b]) == Some(tally(seqs, seq![a, b])));
    assert(t.count_at(abc) == Some(tally(seqs, abc)));
    assert(t.count_at(abd) == Some(tally(seqs, abd)));
    assert forall|p: Seq<Seq<char>>| p.len() > 0 implies (#[trigger] t.count_at(p) is Some <==> (p
        == seq![a] || p == seq![a, b] || p == abc || p == abd)) by {
        assert(tally(seqs, p) == (if is_prefix_path(p, abc) {
            1nat
        } else {
            0nat
        }) + (if is_prefix_path(p, abd) {
            1nat
        } else {
            0nat
        }));
        if is_prefix_path(p, abc) {
            if p.len() == 1 {
                assert(p =~= seq![a]);
            } else if p.len() == 2 {
                assert(p =~= seq![a, b]);
            } else {
                assert(p =~= abc);
            }
        }
        if is_prefix_path(p, abd) {
            if p.len() == 1 {
                assert(p =~= seq![a]);
            } else if p.len() == 2 {
                assert(p =~= seq![a, b]);
            } else {
                assert(p =~= abd);
            }
        }
    }
}

/// Whether some node of `cs` has the text `k`.
pub open spec fn has_label<T: Token>(cs: Seq<Node<T>>, k: Seq<char>) -> bool {
    exists|i: int| 0 <= i < cs.len() && label(#[trigger] cs[i]) == k
}

proof fn lemma_sorted_same_labels<T: Token>(cs1: Seq<Node<T>>, cs2: Seq<Node<T>>)
    requires
        sorted_children(cs1),
        sorted_children(cs2),
        forall|k: Seq<char>| has_label(cs1, k) <==> has_label(cs2, k),
    ensures
        cs1.len() == cs2.len(),
        forall|i: int| 0 <= i < cs1.len() ==> label(#[trigger] cs1[i]) == label(cs2[i]),
    decreases cs1.len(),
{
    if cs1.len() == 0 {
        if cs2.len() > 0 {
            assert(has_label(cs2, label(cs2[0])));
        }
    } else if cs2.len() == 0 {
        assert(has_label(cs1, label(cs1[0])));
    } else {
        let l1 = label(cs1[0]);
        let l2 = label(cs2[0]);
        assert(has_label(cs1, l1));
        assert(has_label(cs2, l2));
        if l1 != l2 {
            let i = choose|i: int| 0 <= i < cs2.len() && label(#[trigger] cs2[i]) == l1;
            let m = choose|m: int| 0 <= m < cs1.len() && label(#[trigger] cs1[m]) == l2;
            assert(text_lt(label(cs2[0]), label(cs2[i])));
            assert(text_lt(label(cs1[0]), label(cs1[m])));
            lemma_text_lt_asymmetric(l1, l2);
        }
        let d1 = cs1.drop_first();
        let d2 = cs2.drop_first();
        assert forall|k: Seq<char>| has_label(d1, k) <==> has_label(d2, k) by {
            if has_label(d1, k) {
                let i = choose|i: int| 0 <= i < d1.len() && label(#[trigger] d1[i]) == k;
                assert(text_lt(label(cs1[0]), label(cs1[i + 1])));
                assert(has_label(cs1, k));
                let j = choose|j: int| 0 <= j < cs2.len() && label(#[trigger] cs2[j]) == k;
                if j == 0 {
                    lemma_text_lt_irreflexive(k);
                }
                assert(label(d2[j - 1]) == k);
            }
            if has_label(d2, k) {
                let i = choose|i: int| 0 <= i < d2.len() && label(#[trigger] d2[i]) == k;
                assert(text_lt(label(cs2[0]), label(cs2[i + 1])));
                assert(has_label(cs2, k));
                let j = choose|j: int| 0 <= j < cs1.len() && label(#[trigger] cs1[j]) == k;
                if j == 0 {
                    lemma_text_lt_irreflexive(k);
                }
                assert(label(d1[j - 1]) == k);
            }
        }
        lemma_sorted_same_labels(d1, d2);
        assert forall|i: int| 0 <= i < cs1.len() implies label(#[trigger] cs1[i]) == label(cs2[i]) by {
            if i > 0 {
                assert(label(d1[i - 1]) == label(d2[i - 1]));
            }
        }
    }
}

/// Two well-formed tries with the same tokens at their roots and a node at
/// the same paths.
pub open spec fn same_shape<T: Token>(n1: Node<T>, n2: Node<T>) -> bool {
    &&& n1.wf()
    &&& n2.wf()
    &&& n1.element is Some <==> n2.element is Some
    &&& n1.element is Some ==> label(n1) == label(n2)
    &&& forall|p: Seq<Seq<char>>| #[trigger] n1.node_at(p) is Some <==> n2.node_at(p) is Some
}

proof fn lemma_child_shape<T: Token>(n1: Node<T>, n2: Node<T>, i: int)
    requires
        same_shape(n1, n2),
        0 <= i < n1.children@.len(),
        n1.children@.len() == n2.children@.len(),
        label(n1.children@[i]) == label(n2.children@[i]),
    ensures
        same_shape(n1.children@[i], n2.children@[i]),
{
    let c1 = n1.children@[i];
    let c2 = n2.children@[i];
    let k = label(c1);
    assert(n1.node_at(Seq::empty()) is Some);
    assert(n2.node_at(Seq::empty()) is Some);
    lemma_child_in_at(n1.children@, i);
    lemma_child_in_at(n2.children@, i);
    assert forall|q: Seq<Seq<char>>| #[trigger] c1.node_at(q) == n1.node_at(seq![k] + q) by {
        assert((seq![k] + q).drop_first() =~= q);
    }
    assert forall|q: Seq<Seq<char>>| #[trigger] c2.node_at(q) == n2.node_at(seq![k] + q) by {
        assert((seq![k] + q).drop_first() =~= q);
    }
    assert forall|q: Seq<Seq<char>>| #[trigger] c1.node_at(q) is Some implies sorted_children(
        c1.node_at(q)->0.children@,
    ) by {
        assert(n1.node_at(seq![k] + q) is Some);
    }
    assert forall|q: Seq<Seq<char>>| #[trigger] c2.node_at(q) is Some implies sorted_children(
        c2.node_at(q)->0.children@,
    ) by {
        assert(c2.node_at(q) == n2.node_at(seq![k] + q));
        assert(n2.node_at(seq![k] + q) is Some);
    }
    assert forall|q: Seq<Seq<char>>| #[trigger] c1.node_at(q) is Some <==> c2.node_at(q) is Some by {
        assert(c2.node_at(q) == n2.node_at(seq![k] + q));
        assert(n1.node_at(seq![k] + q) is Some <==> n2.node_at(seq![k] + q) is Some);
    }
}

/// Tries of the same shape render to the same text.
pub proof fn lemma_same_shape_same_rendering<T: Token>(
    n1: Node<T>,
    n2: Node<T>,
    prefix: Seq<char>,
    is_last: bool,
)
    requires
        same_shape(n1, n2),
    ensures
        render_node(n1, prefix, is_last) == render_node(n2, prefix, is_last),
    decreases n1, 1int, 0int,
{
    let cs1 = n1.children@;
    let cs2 = n2.children@;
    assert(n1.node_at(Seq::empty()) is Some);
    assert(n2.node_at(Seq::empty()) is Some);
    assert forall|k: Seq<char>| has_label(cs1, k) <==> has_label(cs2, k) by {
        let kp = seq![k];
        assert(kp.drop_first() =~= Seq::<Seq<char>>::empty());
        assert(kp[0] == k);
        assert(n1.node_at(kp) is Some <==> n2.node_at(kp) is Some);
        if has_label(cs1, k) {
            let i = choose|i: int| 0 <= i < cs1.len() && label(#[trigger] cs1[i]) == k;
            lemma_child_in_at(cs1, i);
            assert(cs1[i].node_at(kp.drop_first()) == Some(cs1[i]));
            assert(n1.node_at(kp) is Some);
            assert(child_in(cs2, k) is Some);
        }
        if has_label(cs2, k) {
            let i = choose|i: int| 0 <= i < cs2.len() && label(#[trigger] cs2[i]) == k;
            lemma_child_in_at(cs2, i);
            assert(cs2[i].node_at(kp.drop_first()) == Some(cs2[i]));
            assert(n2.node_at(kp) is Some);
            assert(child_in(cs1, k) is Some);
        }
    }
    lemma_sorted_same_labels(cs1, cs2);
    lemma_same_shape_children(n1, n2, cs1.len() as int, prefix + continuation(is_last));
}

proof fn lemma_same_shape_children<T: Token>(n1: Node<T>, n2: Node<T>, k: int, prefix: Seq<char>)
    requires
        same_shape(n1, n2),
        0 <= k <= n1.children@.len(),
        n1.children@.len() == n2.children@.len(),
        forall|i: int|
            0 <= i < n1.children@.len() ==> label(#[trigger] n1.children@[i]) == label(
                n2.children@[i],
            ),
    ensures
        render_children(n1, k, prefix) == render_children(n2, k, prefix),
    decreases n1, 0int, k,
{
    if k > 0 {
        lemma_same_shape_children(n1, n2, k - 1, prefix);
        lemma_child_shape(n1, n2, k - 1);
        lemma_same_shape_same_rendering(
            n1.children@[k - 1],
            n2.children@[k - 1],
            prefix,
            k == n1.children@.len(),
        );
    }
}

proof fn lemma_tally_remove(seqs: Seq<Seq<Seq<char>>>, i: int, p: Seq<Seq<char>>)
    requires
        0 <= i < seqs.len(),
    ensures
        tally(seqs, p) == tally(seqs.remove(i), p) + if is_prefix_path(p, seqs[i]) {
            1nat
        } else {
            0nat
        },
    decreases seqs.len(),
{
    if i == seqs.len() - 1 {
        assert(seqs.remove(i) =~= seqs.drop_last());
    } else {
        assert(seqs.remove(i).drop_last() =~= seqs.drop_last().remove(i));
        assert(seqs.remove(i).last() == seqs.last());
        lemma_tally_remove(seqs.drop_last(), i, p);
    }
}

proof fn lemma_tally_multiset(s1: Seq<Seq<Seq<char>>>, s2: Seq<Seq<Seq<char>>>, p: Seq<Seq<char>>)
    requires
        s1.to_multiset() == s2.to_multiset(),
    ensures
        tally(s1, p) == tally(s2, p),
    decreases s1.len(),
{
    if s1.len() == 0 {
        assert(s2.to_multiset().len() == 0);
    } else {
        let x = s1.last();
        let rest = s1.drop_last();
        assert(rest.push(x) =~= s1);
        assert(s1.to_multiset() == rest.to_multiset().insert(x));
        assert(s2.to_multiset().count(x) > 0);
        assert(s2.contains(x));
        let i = choose|i: int| 0 <= i < s2.len() && s2[i] == x;
        assert(s2.remove(i).to_multiset() =~= rest.to_multiset());
        lemma_tally_multiset(rest, s2.remove(i), p);
        lemma_tally_remove(s2, i, p);
    }
}

/// Two tries built from the same multiset of sequences, in whatever order,
/// render to the same text.
pub proof fn lemma_same_multiset_same_rendering<T: Token>(
    t1: Node<T>,
    t2: Node<T>,
    s1: Seq<Seq<Seq<char>>>,
    s2: Seq<Seq<Seq<char>>>,
)
    requires
        holds_exactly(t1, s1),
        holds_exactly(t2, s2),
        s1.to_multiset() == s2.to_multiset(),
    ensures
        tree_text(t1) == tree_text(t2),
{
    assert forall|p: Seq<Seq<char>>| #[trigger] t1.node_at(p) is Some <==> t2.node_at(p) is Some by {
        if p.len() > 0 {
            lemma_tally_multiset(s1, s2, p);
            assert(t1.count_at(p) is Some <==> t2.count_at(p) is Some);
        }
    }
    lemma_same_shape_same_rendering(t1, t2, Seq::empty(), true);
}

/// A trie holding the one sequence `[x]` renders to the single line of `x`.
pub proof fn lemma_single_token_rendering<T: Token>(t: Node<T>, x: Seq<char>)
    requires
        holds_exactly(t, seq![seq![x]]),
    ensures
        tree_text(t) == seq![' ', ' ', ' ', ' '] + branch(true) + x + seq!['\n'],
{
    let seqs = seq![seq![x]];
    let cs = t.children@;
    reveal_with_fuel(tally, 2);
    assert(seqs.drop_last() =~= Seq::<Seq<Seq<char>>>::empty());
    assert(t.node_at(Seq::empty()) is Some);
    assert(seq![x].take(1) =~= seq![x]);
    assert(t.count_at(seq![x]) == Some(1nat));
    // Every child has the text `x`.
    assert forall|j: int| 0 <= j < cs.len() implies label(#[trigger] cs[j]) == x by {
        let y = label(cs[j]);
        lemma_child_in_at(cs, j);
        assert(seq![y].drop_first() =~= Seq::<Seq<char>>::empty());
        assert(cs[j].node_at(Seq::empty()) == Some(cs[j]));
        assert(t.count_at(seq![y]) is Some);
        assert(is_prefix_path(seq![y], seq![x]));
        assert(seq![x].take(1)[0] == y);
    }
    assert(cs.len() > 0);
    if cs.len() > 1 {
        assert(text_lt(label(cs[0]), label(cs[1])));
        lemma_text_lt_irreflexive(x);
    }
    let c = cs[0];
    lemma_child_in_at(cs, 0);
    let cc = c.children@;
    assert(c.node_at(Seq::empty()) == Some(c));
    assert(seq![x].drop_first() =~= Seq::<Seq<char>>::empty());
    assert(t.node_at(seq![x]) == Some(c));
    if cc.len() > 0 {
        let z = label(cc[0]);
        assert(sorted_children(cc));
        lemma_child_in_at(cc, 0);
        let xz = seq![x, z];
        assert(xz.drop_first() =~= seq![z]);
        assert(seq![z].drop_first() =~= Seq::<Seq<char>>::empty());
        assert(cc[0].node_at(Seq::empty()) == Some(cc[0]));
        assert(c.node_at(seq![z]) == Some(cc[0]));
        assert(t.node_at(xz) == c.node_at(seq![z]));
        assert(t.count_at(xz) is Some);
        assert(!is_prefix_path(xz, seq![x]));
    }
    let pre = Seq::<char>::empty() + continuation(true);
    assert(render_children(c, 0, pre + continuation(true)) == Seq::<char>::empty());
    assert(render_node(c, pre, true) == node_line(c, pre, true));
    assert(render_children(t, 0, pre) == Seq::<char>::empty());
    assert(render_children(t, 1, pre) == render_node(c, pre, true));
    assert(tree_text(t) == render_children(t, 1, pre));
    assert(pre =~= seq![' ', ' ', ' ', ' ']);
}

} // verus!
