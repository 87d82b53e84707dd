use vstd::prelude::*;

use crate::text::{chars_of, push_char};

verus! {

/// One node of the prefix tree: the edges to its children, each labelled
/// with a character, and whether a word ends here.
struct TrieNode {
    children: Vec<(char, TrieNode)>,
    is_end: bool,
}

impl TrieNode {
    /// `w` is spelled by a path from this node that ends at a word end.
    spec fn contains(self, w: Seq<char>) -> bool
        decreases w.len(),
    {
        if w.len() == 0 {
            self.is_end
        } else {
            exists|i: int|
                0 <= i < self.children@.len() && #[trigger] self.children@[i].0 == w[0]
                    && self.children@[i].1.contains(w.drop_first())
        }
    }

    /// A node below which some word ends.
    spec fn live(self) -> bool {
        self.is_end || self.children@.len() > 0
    }

    /// Edge labels are distinct and every child is well formed and live.
    spec fn wf(self) -> bool
        decreases self,
    {
        &&& forall|i: int, j: int|
            0 <= i < self.children@.len() && 0 <= j < self.children@.len() && i != j
                ==> self.children@[i].0 != self.children@[j].0
        &&& forall|i: int|
            0 <= i < self.children@.len() ==> {
                &&& (#[trigger] self.children@[i]).1.wf()
                &&& self.children@[i].1.live()
            }
    }

    /// The words of the child reached by edge `i` are those of this node
    /// that start with that edge's label, with the label removed.
    proof fn lemma_child_words(self, i: int, t: Seq<char>)
        requires
            self.wf(),
            0 <= i < self.children@.len(),
        ensures
            self.contains(seq![self.children@[i].0] + t) <==> self.children@[i].1.contains(t),
    {
        let w = seq![self.children@[i].0] + t;
        assert(w.drop_first() =~= t);
        assert(w[0] == self.children@[i].0);
        if self.contains(w) {
            let k = choose|k: int|
                0 <= k < self.children@.len() && #[trigger] self.children@[k].0 == w[0]
                    && self.children@[k].1.contains(w.drop_first());
            assert(k == i);
        }
    }

    /// A well-formed live node holds at least one word.
    proof fn lemma_live_has_word(self)
        requires
            self.wf(),
            self.live(),
        ensures
            exists|w: Seq<char>| self.contains(w),
        decreases self,
    {
        if self.is_end {
            assert(self.contains(Seq::empty()));
        } else {
            let child = self.children@[0].1;
            assert(self.children@[0].1.wf());
            child.lemma_live_has_word();
            let t = choose|t: Seq<char>| child.contains(t);
            self.lemma_child_words(0, t);
            assert(self.contains(seq![self.children@[0].0] + t));
        }
    }

    fn empty() -> (n: TrieNode)
        ensures
            n.wf(),
            !n.live(),
            forall|w: Seq<char>| !n.contains(w),
    {
        let n = TrieNode { children: Vec::new(), is_end: false };
        assert forall|w: Seq<char>| !n.contains(w) by {
            if w.len() > 0 {
                assert(n.children@.len() == 0);
            }
        }
        n
    }

    /// The index of the edge labelled `c`, if there is one.
    fn find_child(&self, c: char) -> (r: Option<usize>)
        ensures
            match r {
                Some(i) => i < self.children@.len() && self.children@[i as int].0 == c,
                None => forall|i: int| 0 <= i < self.children@.len() ==> self.children@[i].0 != c,
            },
    {
        let mut i: usize = 0;
        while i < self.children.len()
            invariant
                i <= self.children@.len(),
                forall|k: int| 0 <= k < i ==> self.children@[k].0 != c,
            decreases self.children@.len() - i,
        {
            if self.children[i].0 == c {
                return Some(i);
            }
            i = i + 1;
        }
        None
    }

    /// Adds the word `word[i..]` below this node.
    fn insert_from(&mut self, word: &Vec<char>, i: usize)
        requires
            old(self).wf(),
            i <= word@.len(),
        ensures
            final(self).wf(),
            final(self).live(),
            forall|s: Seq<char>|
                #[trigger] final(self).contains(s) <==> old(self).contains(s) || s == word@.skip(
                    i as int,
                ),
        decreases word@.len() - i,
    {
        let ghost before = *self;
        if i == word.len() {
            self.is_end = true;
            assert forall|s: Seq<char>|
                #[trigger] self.contains(s) <==> before.contains(s) || s == word@.skip(i as int) by {
                if s.len() == 0 {
                    assert(word@.skip(i as int) =~= s);
                } else {
                    assert(word@.skip(i as int).len() == 0);
                    assert(self.children@ == before.children@);
                    if self.contains(s) {
                        let k = choose|k: int|
                            0 <= k < self.children@.len() && #[trigger] self.children@[k].0 == s[0]
                                && self.children@[k].1.contains(s.drop_first());
                        assert(before.children@[k] == self.children@[k]);
                    }
                    if before.contains(s) {
                        let k = choose|k: int|
                            0 <= k < before.children@.len() && #[trigger] before.children@[k].0
                                == s[0] && before.children@[k].1.contains(s.drop_first());
                        assert(before.children@[k] == self.children@[k]);
                    }
                }
            }
        } else {
            let c = word[i];
            let ghost rest = word@.skip(i as int);
            assert(rest.len() > 0 && rest[0] == c);
            assert(rest.drop_first() =~= word@.skip(i + 1));
            match self.find_child(c) {
                Some(j) => {
                    let (ch, mut child) = self.children.remove(j);
                    assert(child == before.children@[j as int].1);
                    child.insert_from(word, i + 1);
                    self.children.insert(j, (ch, child));
                    assert(self.children@ =~= before.children@.update(j as int, (ch, child)));
                    proof {
                        self.lemma_insert_at(before, j as int, word@.skip(i + 1));
                    }
                },
                None => {
                    let mut child = TrieNode::empty();
                    child.insert_from(word, i + 1);
                    self.children.push((c, child));
                    proof {
                        self.lemma_insert_new(before, c, word@.skip(i + 1));
                    }
                },
            }
            assert forall|s: Seq<char>|
                #[trigger] self.contains(s) <==> before.contains(s) || s == word@.skip(i as int) by {
                if s.len() > 0 && s[0] == c {
                    assert(s == rest <==> s.drop_first() == rest.drop_first()) by {
                        if s.drop_first() == rest.drop_first() {
                            assert(s =~= seq![s[0]] + s.drop_first());
                            assert(rest =~= seq![rest[0]] + rest.drop_first());
                        }
                    }
                }
            }
        }
    }

    /// Replacing the child of edge `j` by one that also holds `t` adds
    /// exactly the word `label + t`.
    proof fn lemma_insert_at(self, before: TrieNode, j: int, t: Seq<char>)
        requires
            before.wf(),
            0 <= j < before.children@.len(),
            self.is_end == before.is_end,
            self.children@.len() == before.children@.len(),
            forall|k: int|
                0 <= k < self.children@.len() && k != j ==> self.children@[k]
                    == before.children@[k],
            self.children@[j].0 == before.children@[j].0,
            self.children@[j].1.wf(),
            self.children@[j].1.live(),
            forall|s: Seq<char>|
                #[trigger] self.children@[j].1.contains(s) <==> before.children@[j].1.contains(s)
                    || s == t,
        ensures
            self.wf(),
            self.live(),
            forall|s: Seq<char>|
                s.len() > 0 ==> (#[trigger] self.contains(s) <==> before.contains(s) || (s[0]
                    == before.children@[j].0 && s.drop_first() == t)),
    {
        assert forall|i: int| 0 <= i < self.children@.len() implies {
            &&& (#[trigger] self.children@[i]).1.wf()
            &&& self.children@[i].1.live()
        } by {
            if i != j {
                assert(before.children@[i].1.wf());
            }
        }
        assert forall|s: Seq<char>| s.len() > 0 implies (#[trigger] self.contains(s)
            <==> before.contains(s) || (s[0] == before.children@[j].0 && s.drop_first() == t)) by {
            if self.contains(s) {
                let k = choose|k: int|
                    0 <= k < self.children@.len() && #[trigger] self.children@[k].0 == s[0]
                        && self.children@[k].1.contains(s.drop_first());
                if k != j {
                    assert(before.children@[k] == self.children@[k]);
                } else if before.children@[j].1.contains(s.drop_first()) {
                    assert(before.children@[j].0 == s[0]);
                }
            }
            if before.contains(s) {
                let k = choose|k: int|
                    0 <= k < before.children@.len() && #[trigger] before.children@[k].0 == s[0]
                        && before.children@[k].1.contains(s.drop_first());
                if k != j {
                    assert(before.children@[k] == self.children@[k]);
                } else {
                    assert(self.children@[j].1.contains(s.drop_first()));
                }
            }
            if s[0] == before.children@[j].0 && s.drop_first() == t {
                assert(self.children@[j].1.contains(s.drop_first()));
                assert(self.children@[j].0 == s[0]);
            }
        }
    }

    /// Adding a new edge labelled `c`, not used before, to a child that
    /// holds `t` alone, adds exactly the word `c + t`.
    proof fn lemma_insert_new(self, before: TrieNode, c: char, t: Seq<char>)
        requires
            before.wf(),
            forall|i: int| 0 <= i < before.children@.len() ==> before.children@[i].0 != c,
            self.is_end == before.is_end,
            self.children@ == before.children@.push((c, self.children@.last().1)),
            self.children@.last().1.wf(),
            self.children@.last().1.live(),
            forall|s: Seq<char>| #[trigger] self.children@.last().1.contains(s) <==> s == t,
        ensures
            self.wf(),
            self.live(),
            forall|s: Seq<char>|
                s.len() > 0 ==> (#[trigger] self.contains(s) <==> before.contains(s) || (s[0]
                    == c && s.drop_first() == t)),
    {
        let n = before.children@.len() as int;
        assert forall|i: int| 0 <= i < self.children@.len() implies {
            &&& (#[trigger] self.children@[i]).1.wf()
            &&& self.children@[i].1.live()
        } by {
            if i != n {
                assert(before.children@[i] == self.children@[i]);
                assert(before.children@[i].1.wf());
            }
        }
        assert forall|s: Seq<char>| s.len() > 0 implies (#[trigger] self.contains(s)
            <==> before.contains(s) || (s[0] == c && s.drop_first() == t)) by {
            if self.contains(s) {
                let k = choose|k: int|
                    0 <= k < self.children@.len() && #[trigger] self.children@[k].0 == s[0]
                        && self.children@[k].1.contains(s.drop_first());
                if k != n {
                    assert(before.children@[k] == self.children@[k]);
                }
            }
            if before.contains(s) {
                let k = choose|k: int|
                    0 <= k < before.children@.len() && #[trigger] before.children@[k].0 == s[0]
                        && before.children@[k].1.contains(s.drop_first());
                assert(before.children@[k] == self.children@[k]);
            }
            if s[0] == c && s.drop_first() == t {
                assert(self.children@[n].1.contains(s.drop_first()));
                assert(self.children@[n].0 == s[0]);
            }
        }
    }

    /// Appends, after the existing entries of `results`, the words below
    /// this node, each with `current` in front.
    fn collect(&self, current: String, results: &mut Vec<String>)
        requires
            self.wf(),
        ensures
            final(results)@.len() >= old(results)@.len(),
            final(results)@.take(old(results)@.len() as int) == old(results)@,
            spells_exactly(
                *self,
                current@,
                final(results)@.skip(old(results)@.len() as int).map_values(|r: String| r@),
            ),
        decreases self,
    {
        let ghost start = results@.len();
        let ghost base = current@;
        if self.is_end {
            results.push(current.clone());
        }
        let ghost mid = results@.len();
        proof {
            let out = results@.skip(start as int).map_values(|r: String| r@);
            assert forall|k: int| 0 <= k < out.len() implies {
                &&& base.is_prefix_of(out[k])
                &&& self.contains(#[trigger] out[k].skip(base.len() as int))
                &&& out[k].skip(base.len() as int).len() == 0
            } by {
                assert(out[k] == base);
                assert(out[k].skip(base.len() as int) =~= Seq::<char>::empty());
            }
            if self.is_end {
                assert(out[0] == base);
                assert(base + Seq::<char>::empty() =~= base);
            }
        }
        let n = self.children.len();
        let mut i: usize = 0;
        while i < n
            invariant
                n == self.children@.len(),
                i <= n,
                self.wf(),
                base == current@,
                results@.len() >= mid,
                mid >= start,
                old(results)@.len() == start,
                results@.take(start as int) == old(results)@,
                partly_spelled(
                    *self,
                    base,
                    results@.skip(start as int).map_values(|r: String| r@),
                    i as int,
                ),
            decreases n - i,
        {
            let ghost before = results@;
            let mut next = current.clone();
            push_char(&mut next, self.children[i].0);
            assert(self.children@[i as int].1.wf());
            self.children[i].1.collect(next, results);
            proof {
                assert(results@.take(start as int) =~= before.take(start as int));
                let prev = before.skip(start as int).map_values(|r: String| r@);
                let added = results@.skip(before.len() as int).map_values(|r: String| r@);
                let all = results@.skip(start as int).map_values(|r: String| r@);
                assert(all =~= prev + added);
                self.lemma_extend_partly(base, prev, added, i as int);
            }
            i = i + 1;
        }
        proof {
            let all = results@.skip(start as int).map_values(|r: String| r@);
            self.lemma_partly_complete(base, all);
        }
    }

    /// Growing a partial listing by the words of child `i` covers one more edge.
    proof fn lemma_extend_partly(
        self,
        base: Seq<char>,
        prev: Seq<Seq<char>>,
        added: Seq<Seq<char>>,
        i: int,
    )
        requires
            self.wf(),
            0 <= i < self.children@.len(),
            partly_spelled(self, base, prev, i),
            spells_exactly(self.children@[i].1, base.push(self.children@[i].0), added),
        ensures
            partly_spelled(self, base, prev + added, i + 1),
    {
        let c = self.children@[i].0;
        let child = self.children@[i].1;
        let all = prev + added;
        let bl = base.len() as int;
        assert forall|k: int| 0 <= k < added.len() implies {
            &&& base.is_prefix_of(#[trigger] added[k])
            &&& self.contains(added[k].skip(bl))
            &&& added[k].skip(bl).len() > 0
            &&& added[k].skip(bl)[0] == c
        } by {
            let w = added[k];
            let t = w.skip(base.push(c).len() as int);
            assert(child.contains(t));
            assert(base.push(c).is_prefix_of(w));
            assert(w.subrange(0, bl + 1)[bl] == w[bl]);
            assert(w[bl] == c);
            assert(base =~= w.subrange(0, bl));
            assert(w.skip(bl) =~= seq![c] + t);
            self.lemma_child_words(i, t);
        }
        assert forall|k: int| 0 <= k < all.len() implies {
            &&& base.is_prefix_of(#[trigger] all[k])
            &&& self.contains(all[k].skip(bl))
            &&& (all[k].skip(bl).len() == 0 || exists|m: int|
                0 <= m < i + 1 && self.children@[m].0 == all[k].skip(bl)[0])
        } by {
            if k < prev.len() {
                assert(all[k] == prev[k]);
            } else {
                assert(all[k] == added[k - prev.len()]);
                assert(self.children@[i].0 == all[k].skip(bl)[0]);
            }
        }
        assert forall|s: Seq<char>|
            #[trigger] self.contains(s) && (s.len() == 0 || exists|m: int|
                0 <= m < i + 1 && self.children@[m].0 == s[0]) implies all.contains(base + s) by {
            if s.len() > 0 && s[0] == c {
                let t = s.drop_first();
                assert(s =~= seq![c] + t);
                self.lemma_child_words(i, t);
                assert(added.contains(base.push(c) + t));
                let k = choose|k: int| 0 <= k < added.len() && added[k] == base.push(c) + t;
                assert(base.push(c) + t =~= base + s);
                assert(all[prev.len() + k] == added[k]);
            } else if s.len() > 0 {
                let m = choose|m: int| 0 <= m < i + 1 && self.children@[m].0 == s[0];
                assert(m != i);
                assert(prev.contains(base + s));
                let k = choose|k: int| 0 <= k < prev.len() && prev[k] == base + s;
                assert(all[k] == prev[k]);
            } else {
                assert(prev.contains(base + s));
                let k = choose|k: int| 0 <= k < prev.len() && prev[k] == base + s;
                assert(all[k] == prev[k]);
            }
        }
        assert forall|p: int, q: int|
            0 <= p < all.len() && 0 <= q < all.len() && p != q implies all[p] != all[q] by {
            if p < prev.len() && q < prev.len() {
            } else if p >= prev.len() && q >= prev.len() {
                assert(all[p] == added[p - prev.len()]);
                assert(all[q] == added[q - prev.len()]);
            } else {
                let (a, b) = if p < prev.len() { (p, q) } else { (q, p) };
                assert(all[b] == added[b - prev.len()]);
                assert(all[a] == prev[a]);
                assert(self.contains(all[a].skip(bl)));
                assert(self.contains(all[b].skip(bl)));
                if all[a] == all[b] {
                    assert(all[b].skip(bl)[0] == c);
                    let m = choose|m: int| 0 <= m < i && self.children@[m].0 == all[a].skip(bl)[0];
                    assert(self.children@[m].0 != self.children@[i].0);
                }
            }
        }
    }

    /// Once every edge is covered, the listing holds exactly the words.
    proof fn lemma_partly_complete(self, base: Seq<char>, out: Seq<Seq<char>>)
        requires
            self.wf(),
            partly_spelled(self, base, out, self.children@.len() as int),
        ensures
            spells_exactly(self, base, out),
    {
        let bl = base.len() as int;
        assert forall|k: int| 0 <= k < out.len() implies base.is_prefix_of(#[trigger] out[k]) && self.contains(
            out[k].skip(bl),
        ) by {
            let t = out[k].skip(base.len() as int);
            assert(self.contains(t));
            assert(base.is_prefix_of(out[k]));
        }
        assert forall|s: Seq<char>| #[trigger] self.contains(s) implies out.contains(base + s) by {
            if s.len() > 0 {
                let m = choose|m: int|
                    0 <= m < self.children@.len() && #[trigger] self.children@[m].0 == s[0]
                        && self.children@[m].1.contains(s.drop_first());
                assert(exists|m2: int|
                    0 <= m2 < self.children@.len() && self.children@[m2].0 == s[0]);
            }
        }
    }
}


impl TrieNode {
    /// The labels along the run of nodes, starting here, that are not word
    /// ends and have exactly one child.
    spec fn chain(self) -> Seq<char>
        decreases self,
    {
        if self.children@.len() == 1 && !self.is_end {
            seq![self.children@[0].0] + self.children@[0].1.chain()
        } else {
            Seq::empty()
        }
    }

    /// The run of single-child nodes below a live node spells the longest
    /// extension shared by all of its words.
    proof fn lemma_chain_is_longest(self)
        requires
            self.wf(),
            self.live(),
        ensures
            node_longest_extension(self, self.chain()),
        decreases self,
    {
        let e = self.chain();
        if self.children@.len() == 1 && !self.is_end {
            let c = self.children@[0].0;
            let child = self.children@[0].1;
            assert(self.children@[0].1.wf());
            child.lemma_chain_is_longest();
            let e1 = child.chain();
            assert(e =~= seq![c] + e1);
            assert forall|s: Seq<char>| #[trigger] self.contains(s) implies e.is_prefix_of(s) by {
                let k = choose|k: int|
                    0 <= k < self.children@.len() && #[trigger] self.children@[k].0 == s[0]
                        && self.children@[k].1.contains(s.drop_first());
                assert(k == 0);
                assert(e1.is_prefix_of(s.drop_first()));
                assert(s =~= seq![c] + s.drop_first());
                assert(e.is_prefix_of(s));
            }
            assert forall|k: int| 0 <= k < e.len() implies !self.contains(#[trigger] e.take(k)) by {
                if k > 0 {
                    assert(e.take(k) =~= seq![c] + e1.take(k - 1));
                    self.lemma_child_words(0, e1.take(k - 1));
                } else {
                    assert(e.take(k).len() == 0);
                }
            }
            if child.contains(e1) {
                self.lemma_child_words(0, e1);
                assert(self.contains(e));
            } else {
                assert(node_longest_extension(child, e1));
                let (t1, t2) = choose|t1: Seq<char>, t2: Seq<char>|
                    child.contains(t1) && child.contains(t2) && diverge_after(t1, t2, e1.len());
                self.lemma_child_words(0, t1);
                self.lemma_child_words(0, t2);
                let s1 = seq![c] + t1;
                let s2 = seq![c] + t2;
                assert(s1[e.len() as int] == t1[e1.len() as int]);
                assert(s2[e.len() as int] == t2[e1.len() as int]);
                assert(self.contains(s1) && self.contains(s2) && diverge_after(s1, s2, e.len()));
            }
            assert(node_longest_extension(self, e));
        } else {
            assert(e =~= Seq::<char>::empty());
            assert forall|s: Seq<char>| #[trigger] self.contains(s) implies e.is_prefix_of(s) by {
                assert(e =~= s.subrange(0, 0));
            }
            if self.is_end {
                assert(self.contains(e));
            } else {
                assert(self.children@.len() >= 2);
                let c0 = self.children@[0];
                let c1 = self.children@[1];
                assert(c0.1.wf() && c0.1.live());
                assert(c1.1.wf() && c1.1.live());
                c0.1.lemma_live_has_word();
                c1.1.lemma_live_has_word();
                let t0 = choose|t: Seq<char>| c0.1.contains(t);
                let t1 = choose|t: Seq<char>| c1.1.contains(t);
                self.lemma_child_words(0, t0);
                self.lemma_child_words(1, t1);
                let s0 = seq![c0.0] + t0;
                let s1 = seq![c1.0] + t1;
                assert(self.contains(s0) && self.contains(s1) && diverge_after(s0, s1, e.len()));
            }
        }
    }
}

/// `e` extends every word below `node`, no shorter part of it is a word,
/// and it cannot be lengthened by one more shared character.
spec fn node_longest_extension(node: TrieNode, e: Seq<char>) -> bool {
    &&& forall|s: Seq<char>| #[trigger] node.contains(s) ==> e.is_prefix_of(s)
    &&& forall|k: int| 0 <= k < e.len() ==> !node.contains(#[trigger] e.take(k))
    &&& (node.contains(e) || exists|s1: Seq<char>, s2: Seq<char>|
        node.contains(s1) && node.contains(s2) && diverge_after(s1, s2, e.len()))
}

/// Both words are longer than `n` and differ at position `n`.
pub open spec fn diverge_after(s1: Seq<char>, s2: Seq<char>, n: nat) -> bool {
    &&& s1.len() > n
    &&& s2.len() > n
    &&& s1[n as int] != s2[n as int]
}


/// `w` is one of the words that start with `prefix`.
pub open spec fn completes(prefix: Seq<char>, w: Seq<char>) -> bool {
    prefix.is_prefix_of(w)
}

/// Some word of `words` starts with `prefix`.
pub open spec fn has_completion(words: Set<Seq<char>>, prefix: Seq<char>) -> bool {
    exists|w: Seq<char>| #[trigger] words.contains(w) && completes(prefix, w)
}

/// `ext` is the longest extension of `prefix` shared by every word that
/// starts with `prefix`: all of them start with `prefix + ext`, none of the
/// shorter extensions is itself a word, and either `prefix + ext` is a word
/// or two of the words part ways right after it.
pub open spec fn is_longest_extension(
    words: Set<Seq<char>>,
    prefix: Seq<char>,
    ext: Seq<char>,
) -> bool {
    &&& forall|w: Seq<char>|
        #[trigger] words.contains(w) && completes(prefix, w) ==> completes(prefix + ext, w)
    &&& forall|k: int| 0 <= k < ext.len() ==> !words.contains(prefix + #[trigger] ext.take(k))
    &&& (words.contains(prefix + ext) || exists|w1: Seq<char>, w2: Seq<char>|
        #[trigger] words.contains(w1) && #[trigger] words.contains(w2) && completes(prefix, w1)
            && completes(prefix, w2) && diverge_after(w1, w2, (prefix + ext).len()))
}

/// A prefix tree of words, for completion of what has been typed so far.
pub struct Trie {
    root: TrieNode,
}

impl View for Trie {
    type V = Set<Seq<char>>;

    /// The words that have been inserted.
    closed spec fn view(&self) -> Set<Seq<char>> {
        Set::new(|w: Seq<char>| self.root.contains(w))
    }
}

/// The node reached by `prefix` holds exactly the rest of the words that
/// start with `prefix`; at that node the longest extension, stated of the
/// node, is the longest extension of the prefix among all the words.
proof fn lemma_lift_longest(words: Set<Seq<char>>, prefix: Seq<char>, node: TrieNode, e: Seq<char>)
    requires
        forall|s: Seq<char>| #[trigger] node.contains(s) <==> words.contains(prefix + s),
        node_longest_extension(node, e),
    ensures
        is_longest_extension(words, prefix, e),
{
    let pl = prefix.len() as int;
    assert forall|w: Seq<char>| #[trigger]
        words.contains(w) && completes(prefix, w) implies completes(prefix + e, w) by {
        let s = w.skip(pl);
        assert(prefix + s =~= w);
        assert(node.contains(s));
        assert(e.is_prefix_of(s));
        assert((prefix + e) =~= w.subrange(0, (prefix + e).len() as int));
    }
    assert forall|k: int| 0 <= k < e.len() implies !words.contains(prefix + #[trigger] e.take(k)) by {
        assert(!node.contains(e.take(k)));
    }
    if !node.contains(e) {
        let (s1, s2) = choose|s1: Seq<char>, s2: Seq<char>|
            node.contains(s1) && node.contains(s2) && diverge_after(s1, s2, e.len());
        let w1 = prefix + s1;
        let w2 = prefix + s2;
        assert(words.contains(w1) && words.contains(w2));
        assert(prefix =~= w1.subrange(0, pl));
        assert(prefix =~= w2.subrange(0, pl));
        assert(w1[pl + e.len()] == s1[e.len() as int]);
        assert(w2[pl + e.len()] == s2[e.len() as int]);
        assert(completes(prefix, w1) && completes(prefix, w2) && diverge_after(
            w1,
            w2,
            (prefix + e).len(),
        ));
    }
}

impl Trie {
    #[verifier::type_invariant]
    spec fn inv(self) -> bool {
        self.root.wf()
    }

    /// Create an empty trie.
    pub fn new() -> (t: Self)
        ensures
            t@ == Set::<Seq<char>>::empty(),
    {
        let t = Trie { root: TrieNode::empty() };
        assert(t@ =~= Set::<Seq<char>>::empty());
        t
    }

    /// Insert a word into the trie.
    pub fn insert(&mut self, word: &str)
        ensures
            final(self)@ == old(self)@.insert(word@),
    {
        proof {
            use_type_invariant(&*self);
        }
        let ghost before = self@;
        let cs = chars_of(word);
        let mut root = TrieNode::empty();
        std::mem::swap(&mut root, &mut self.root);
        root.insert_from(&cs, 0);
        assert(cs@.skip(0) =~= word@);
        std::mem::swap(&mut root, &mut self.root);
        assert(self@ =~= before.insert(word@));
    }

    /// Walk the trie following `prefix`; return the node at the end.
    fn find_node(&self, prefix: &str) -> (r: Option<&TrieNode>)
        ensures
            match r {
                Some(n) => {
                    &&& n.wf()
                    &&& (prefix@.len() > 0 ==> n.live())
                    &&& forall|s: Seq<char>| #[trigger] n.contains(s) <==> self@.contains(prefix@ + s)
                },
                None => !has_completion(self@, prefix@),
            },
    {
        proof {
            use_type_invariant(self);
        }
        let cs = chars_of(prefix);
        let ghost p = cs@;
        let mut node = &self.root;
        let mut k: usize = 0;
        assert forall|s: Seq<char>| #[trigger] node.contains(s) <==> self@.contains(p.take(0) + s) by {
            assert(p.take(0) + s =~= s);
        }
        while k < cs.len()
            invariant
                p == prefix@,
                p == cs@,
                k <= cs@.len(),
                node.wf(),
                k > 0 ==> node.live(),
                forall|s: Seq<char>| #[trigger] node.contains(s) <==> self@.contains(p.take(k as int) + s),
            decreases cs@.len() - k,
        {
            let c = cs[k];
            match node.find_child(c) {
                None => {
                    assert forall|w: Seq<char>| #[trigger] self@.contains(w) implies !completes(p, w) by {
                        if completes(p, w) {
                            let t = w.skip(k as int);
                            assert(p.take(k as int) + t =~= w);
                            assert(t[0] == c);
                            assert(node.contains(t));
                        }
                    }
                    return None;
                },
                Some(j) => {
                    let ghost parent = *node;
                    assert(parent.children@[j as int].1.wf());
                    node = &node.children[j].1;
                    assert forall|s: Seq<char>| #[trigger] node.contains(s) <==> self@.contains(
                        p.take(k + 1) + s,
                    ) by {
                        parent.lemma_child_words(j as int, s);
                        assert(p.take(k as int) + (seq![c] + s) =~= p.take(k + 1) + s);
                    }
                    k = k + 1;
                },
            }
        }
        assert(p.take(k as int) =~= p);
        Some(node)
    }

    /// Return all words that share the given `prefix`, each once.
    pub fn autocomplete(&self, prefix: &str) -> (r: Vec<String>)
        ensures
            r@.map_values(|s: String| s@).no_duplicates(),
            forall|i: int| 0 <= i < r@.len() ==> self@.contains(#[trigger] r@[i]@) && completes(prefix@, r@[i]@),
            forall|w: Seq<char>| #[trigger] self@.contains(w) && completes(prefix@, w) ==> exists|i: int|
                0 <= i < r@.len() && #[trigger] r@[i]@ == w,
    {
        match self.find_node(prefix) {
            None => {
                let r: Vec<String> = Vec::new();
                r
            },
            Some(node) => {
                let mut results: Vec<String> = Vec::new();
                node.collect(prefix.to_string(), &mut results);
                let ghost out = results@.map_values(|s: String| s@);
                assert(results@.skip(0) =~= results@);
                let ghost pl = prefix@.len() as int;
                assert forall|i: int| 0 <= i < results@.len() implies self@.contains(#[trigger] results@[i]@)
                    && completes(prefix@, results@[i]@) by {
                    assert(out[i] == results@[i]@);
                    assert(prefix@ + out[i].skip(pl) =~= out[i]);
                }
                assert forall|w: Seq<char>| #[trigger] self@.contains(w) && completes(prefix@, w) implies exists|i: int|
                    0 <= i < results@.len() && #[trigger] results@[i]@ == w by {
                    let s = w.skip(pl);
                    assert(prefix@ + s =~= w);
                    assert(node.contains(s));
                    assert(out.contains(prefix@ + s));
                    let i = choose|i: int| 0 <= i < out.len() && out[i] == prefix@ + s;
                    assert(results@[i]@ == w);
                }
                results
            },
        }
    }

    /// Return the longest unambiguous suffix that extends `prefix`.
    ///
    /// For example, if the trie contains `["cargo", "cat"]` and `prefix`
    /// is `"ca"`, this returns `None` because the next character is
    /// ambiguous.  If the trie only contains `"cargo"`, this returns
    /// `Some("rgo")`.
    pub fn longest_common_extension(&self, prefix: &str) -> (r: Option<String>)
        ensures
            match r {
                Some(e) => e@.len() > 0 && is_longest_extension(self@, prefix@, e@),
                None => !has_completion(self@, prefix@) || is_longest_extension(
                    self@,
                    prefix@,
                    Seq::empty(),
                ),
            },
    {
        let start = match self.find_node(prefix) {
            None => {
                return None;
            },
            Some(n) => n,
        };
        let mut node = start;
        let mut extension = String::new();
        let mut moved = false;
        while node.children.len() == 1 && !node.is_end
            invariant
                node.wf(),
                extension@ + node.chain() == start.chain(),
                moved == (extension@.len() > 0),
            decreases node.chain().len(),
        {
            let ghost parent = *node;
            assert(parent.children@[0].1.wf());
            push_char(&mut extension, node.children[0].0);
            node = &node.children[0].1;
            moved = true;
            assert(extension@ + node.chain() =~= start.chain());
        }
        assert(extension@ =~= start.chain());
        proof {
            if start.live() {
                start.lemma_chain_is_longest();
                lemma_lift_longest(self@, prefix@, *start, start.chain());
            } else {
                assert forall|w: Seq<char>| #[trigger] self@.contains(w) implies !completes(prefix@, w) by {
                    if completes(prefix@, w) {
                        let s = w.skip(prefix@.len() as int);
                        assert(prefix@ + s =~= w);
                        assert(start.contains(s));
                    }
                }
            }
        }
        if moved {
            Some(extension)
        } else {
            None
        }
    }

    /// Same as [`Trie::longest_common_extension`]: the longest unambiguous
    /// suffix that extends `prefix`, if there is one.
    pub fn get_longest_common_prefix(&self, prefix: &str) -> (r: Option<String>)
        ensures
            match r {
                Some(e) => e@.len() > 0 && is_longest_extension(self@, prefix@, e@),
                None => !has_completion(self@, prefix@) || is_longest_extension(
                    self@,
                    prefix@,
                    Seq::empty(),
                ),
            },
    {
        self.longest_common_extension(prefix)
    }
}


/// Of two longest extensions, the second is no longer than the first:
/// both are prefixes of any completion, and the longer one rules out the
/// shorter one's word or branching.
proof fn lemma_shorter_not_longest(
    words: Set<Seq<char>>,
    prefix: Seq<char>,
    e1: Seq<char>,
    e2: Seq<char>,
    w0: Seq<char>,
)
    requires
        is_longest_extension(words, prefix, e1),
        is_longest_extension(words, prefix, e2),
        words.contains(w0),
        completes(prefix, w0),
    ensures
        e2.len() <= e1.len(),
{
    if e1.len() >= e2.len() {
        return;
    }
    let pl = prefix.len() as int;
    let n1 = e1.len() as int;
    assert(completes(prefix + e1, w0));
    assert(completes(prefix + e2, w0));
    assert(e1 =~= e2.take(n1)) by {
        assert forall|j: int| 0 <= j < n1 implies e1[j] == e2[j] by {
            assert((prefix + e1)[pl + j] == w0[pl + j]);
            assert((prefix + e2)[pl + j] == w0[pl + j]);
        }
    }
    assert(!words.contains(prefix + e2.take(n1)));
    assert(!words.contains(prefix + e1));
    let (w1, w2) = choose|w1: Seq<char>, w2: Seq<char>|
        #[trigger] words.contains(w1) && #[trigger] words.contains(w2) && completes(prefix, w1)
            && completes(prefix, w2) && diverge_after(w1, w2, (prefix + e1).len());
    assert(completes(prefix + e2, w1));
    assert(completes(prefix + e2, w2));
    assert(w1[pl + n1] == (prefix + e2)[pl + n1]);
    assert(w2[pl + n1] == (prefix + e2)[pl + n1]);
}

/// Law: once some word starts with `prefix`, its longest extension is
/// unique, so the contract of `Trie::longest_common_extension` fixes the
/// result.
pub proof fn lemma_longest_extension_unique(
    words: Set<Seq<char>>,
    prefix: Seq<char>,
    e1: Seq<char>,
    e2: Seq<char>,
)
    requires
        has_completion(words, prefix),
        is_longest_extension(words, prefix, e1),
        is_longest_extension(words, prefix, e2),
    ensures
        e1 == e2,
{
    let w0 = choose|w: Seq<char>| #[trigger] words.contains(w) && completes(prefix, w);
    lemma_shorter_not_longest(words, prefix, e1, e2, w0);
    lemma_shorter_not_longest(words, prefix, e2, e1, w0);
    {
        let pl = prefix.len() as int;
        assert(completes(prefix + e1, w0));
        assert(completes(prefix + e2, w0));
        assert forall|j: int| 0 <= j < e1.len() implies e1[j] == e2[j] by {
            assert((prefix + e1)[pl + j] == w0[pl + j]);
            assert((prefix + e2)[pl + j] == w0[pl + j]);
        }
        assert(e1 =~= e2);
    }
}

/// Law: extending `prefix` by its longest extension keeps every candidate:
/// the words that start with `prefix` are exactly those that start with
/// `prefix + ext`.
pub proof fn lemma_extension_keeps_completions(
    words: Set<Seq<char>>,
    prefix: Seq<char>,
    ext: Seq<char>,
)
    requires
        is_longest_extension(words, prefix, ext),
    ensures
        forall|w: Seq<char>|
            #[trigger] words.contains(w) ==> (completes(prefix, w) <==> completes(prefix + ext, w)),
{
    assert forall|w: Seq<char>| #[trigger] words.contains(w) implies (completes(prefix, w)
        <==> completes(prefix + ext, w)) by {
        if completes(prefix + ext, w) {
            assert(prefix =~= w.subrange(0, prefix.len() as int)) by {
                assert forall|j: int| 0 <= j < prefix.len() implies prefix[j] == w[j] by {
                    assert((prefix + ext)[j] == w[j]);
                }
            }
        }
    }
}

/// Law: a word that has been inserted is offered by completion of each of
/// its prefixes.
pub proof fn lemma_inserted_word_completes(words: Set<Seq<char>>, word: Seq<char>, k: int)
    requires
        0 <= k <= word.len(),
    ensures
        has_completion(words.insert(word), word.take(k)),
{
    assert(words.insert(word).contains(word));
    assert(word.take(k) =~= word.subrange(0, k));
    assert(completes(word.take(k), word));
}

/// `out` lists, without repetition, exactly the words `base + s` for the
/// words `s` held below `node`.
spec fn spells_exactly(node: TrieNode, base: Seq<char>, out: Seq<Seq<char>>) -> bool {
    &&& forall|k: int|
        #![trigger out[k]]
        0 <= k < out.len() ==> {
            &&& base.is_prefix_of(out[k])
            &&& node.contains(out[k].skip(base.len() as int))
        }
    &&& forall|s: Seq<char>| #[trigger] node.contains(s) ==> out.contains(base + s)
    &&& out.no_duplicates()
}

/// `out` lists, without repetition, the words below `node` that are
/// empty or start with the label of one of the first `i` edges.
spec fn partly_spelled(node: TrieNode, base: Seq<char>, out: Seq<Seq<char>>, i: int) -> bool {
    &&& forall|k: int|
        #![trigger out[k]]
        0 <= k < out.len() ==> {
            &&& base.is_prefix_of(out[k])
            &&& node.contains(out[k].skip(base.len() as int))
            &&& (out[k].skip(base.len() as int).len() == 0 || exists|m: int|
                0 <= m < i && node.children@[m].0 == out[k].skip(base.len() as int)[0])
        }
    &&& forall|s: Seq<char>|
        #[trigger] node.contains(s) && (s.len() == 0 || exists|m: int|
            0 <= m < i && node.children@[m].0 == s[0]) ==> out.contains(base + s)
    &&& out.no_duplicates()
}

} // verus!
