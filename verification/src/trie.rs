//! A prefix tree over characters, holding a set of words.
//!
//! Each node stores its children keyed by character, one child per
//! character, and the nodes that end an inserted word store that word.
//! Walking a word's characters from the root therefore reaches a node
//! whose stored word, if any, is exactly the path walked — so membership
//! is exact: `contains` answers whether that very word was inserted.

use vstd::prelude::*;
use vstd::string::{StringExecFns, StrSliceExecFns};

verus! {

/// One node: the word ending here, if any, and the children by character.
pub struct TrieNode {
    word: Option<String>,
    children: Vec<(char, TrieNode)>,
}

/// The prefix tree.
pub struct Trie {
    root: TrieNode,
}

/// The first child of `cs` labeled `c`.
spec fn spec_child(cs: Seq<(char, TrieNode)>, c: char) -> Option<TrieNode>
    decreases cs.len(),
{
    if cs.len() == 0 {
        None
    } else if cs[0].0 == c {
        Some(cs[0].1)
    } else {
        spec_child(cs.drop_first(), c)
    }
}

proof fn lemma_spec_child_found(cs: Seq<(char, TrieNode)>, c: char, j: int)
    requires
        0 <= j < cs.len(),
        cs[j].0 == c,
        forall|k: int| 0 <= k < j ==> (#[trigger] cs[k]).0 != c,
    ensures
        spec_child(cs, c) == Some(cs[j].1),
    decreases cs.len(),
{
    if j > 0 {
        lemma_spec_child_found(cs.drop_first(), c, j - 1);
    }
}

proof fn lemma_spec_child_none(cs: Seq<(char, TrieNode)>, c: char)
    requires
        forall|k: int| 0 <= k < cs.len() ==> (#[trigger] cs[k]).0 != c,
    ensures
        spec_child(cs, c) is None,
    decreases cs.len(),
{
    if cs.len() > 0 {
        lemma_spec_child_none(cs.drop_first(), c);
    }
}

proof fn lemma_spec_child_update(cs: Seq<(char, TrieNode)>, j: int, p: (char, TrieNode), c: char)
    requires
        0 <= j < cs.len(),
        p.0 == cs[j].0,
        forall|k: int| 0 <= k < j ==> (#[trigger] cs[k]).0 != p.0,
    ensures
        spec_child(cs.update(j, p), c) == if c == p.0 {
            Some(p.1)
        } else {
            spec_child(cs, c)
        },
    decreases cs.len(),
{
    if j > 0 {
        assert(cs.update(j, p).drop_first() =~= cs.drop_first().update(j - 1, p));
        lemma_spec_child_update(cs.drop_first(), j - 1, p, c);
    } else {
        if c != p.0 {
            assert(cs.update(j, p).drop_first() =~= cs.drop_first());
        }
    }
}

proof fn lemma_spec_child_push(cs: Seq<(char, TrieNode)>, p: (char, TrieNode), c: char)
    requires
        forall|k: int| 0 <= k < cs.len() ==> (#[trigger] cs[k]).0 != p.0,
    ensures
        spec_child(cs.push(p), c) == if c == p.0 {
            Some(p.1)
        } else {
            spec_child(cs, c)
        },
    decreases cs.len(),
{
    if cs.len() == 0 {
        assert(cs.push(p)[0] == p);
        assert(cs.push(p).drop_first() =~= Seq::<(char, TrieNode)>::empty());
        if c != p.0 {
            assert(spec_child(Seq::<(char, TrieNode)>::empty(), c) is None);
        }
    } else {
        assert(cs.push(p)[0] == cs[0]);
        assert(cs.push(p).drop_first() =~= cs.drop_first().push(p));
        lemma_spec_child_push(cs.drop_first(), p, c);
        if c == p.0 {
            assert(cs[0].0 != p.0);
        }
    }
}

impl TrieNode {
    /// Whether the word `s` ends at a word-marked node below `self`.
    pub closed spec fn holds(self, s: Seq<char>) -> bool
        decreases s.len(),
    {
        if s.len() == 0 {
            self.word is Some
        } else {
            match spec_child(self.children@, s[0]) {
                Some(child) => child.holds(s.drop_first()),
                None => false,
            }
        }
    }

    /// Shape invariant for the node reached by walking `path` from the
    /// root: a stored word is exactly the path, and children are one per
    /// character, each well-formed for its extended path.
    pub closed spec fn wf_at(self, path: Seq<char>) -> bool
        decreases self,
    {
        &&& (self.word matches Some(w) ==> w@ == path)
        &&& (forall|i: int, j: int|
            0 <= i < j < self.children@.len() ==> (#[trigger] self.children@[i]).0 != (
            #[trigger] self.children@[j]).0)
        &&& (forall|i: int|
            0 <= i < self.children@.len() ==> (#[trigger] self.children@[i]).1.wf_at(
                path.push(self.children@[i].0),
            ))
    }

    /// A node with no word and no children.
    pub fn new() -> (r: TrieNode)
        ensures
            forall|p: Seq<char>| r.wf_at(p),
            forall|s: Seq<char>| !r.holds(s),
    {
        let r = TrieNode { word: None, children: Vec::new() };
        proof {
            assert forall|s: Seq<char>| !r.holds(s) by {
                if s.len() > 0 {
                    lemma_spec_child_none(r.children@, s[0]);
                }
            }
        }
        r
    }
}

fn find_child(children: &Vec<(char, TrieNode)>, c: char) -> (r: Option<usize>)
    ensures
        r matches Some(j) ==> j < children@.len() && children@[j as int].0 == c && spec_child(
            children@,
            c,
        ) == Some(children@[j as int].1) && forall|k: int|
            0 <= k < j ==> (#[trigger] children@[k]).0 != c,
        r is None ==> spec_child(children@, c) is None && forall|k: int|
            0 <= k < children@.len() ==> (#[trigger] children@[k]).0 != c,
{
    let mut j: usize = 0;
    while j < children.len()
        invariant
            j <= children@.len(),
            forall|k: int| 0 <= k < j ==> (#[trigger] children@[k]).0 != c,
        decreases children@.len() - j,
    {
        if children[j].0 == c {
            proof {
                lemma_spec_child_found(children@, c, j as int);
            }
            return Some(j);
        }
        j = j + 1;
    }
    proof {
        lemma_spec_child_none(children@, c);
    }
    None
}

fn insert_at(n: &mut TrieNode, value: &str, pos: usize)
    requires
        pos <= value@.len(),
        old(n).wf_at(value@.take(pos as int)),
    ensures
        final(n).wf_at(value@.take(pos as int)),
        forall|s: Seq<char>|
            #![trigger final(n).holds(s)]
            final(n).holds(s) <==> old(n).holds(s) || s == value@.skip(pos as int),
    decreases value@.len() - pos,
{
    let len = value.unicode_len();
    if pos == len {
        proof {
            assert(value@.take(pos as int) =~= value@);
            assert(value@.skip(pos as int) =~= Seq::<char>::empty());
        }
        n.word = Some(value.to_owned());
        proof {
            assert forall|s: Seq<char>|
                n.holds(s) <==> (old(n).holds(s) || s == value@.skip(pos as int)) by {
                if s.len() == 0 {
                    assert(n.holds(s));
                    assert(s =~= Seq::<char>::empty());
                } else {
                    assert(n.children@ == old(n).children@);
                    assert(n.holds(s) == old(n).holds(s));
                    assert(value@.skip(pos as int).len() == 0);
                    assert(s != value@.skip(pos as int));
                }
            }
        }
    } else {
        let c = value.get_char(pos);
        let ghost path = value@.take(pos as int);
        let ghost path2 = value@.take(pos as int + 1);
        proof {
            assert(path2 =~= path.push(c));
            assert(value@.skip(pos as int)[0] == c);
            assert(value@.skip(pos as int).drop_first() =~= value@.skip(pos as int + 1));
        }
        match find_child(&n.children, c) {
            Some(j) => {
                let ghost cs0 = n.children@;
                let mut pair = n.children.remove(j);
                insert_at(&mut pair.1, value, pos + 1);
                n.children.insert(j, pair);
                proof {
                    assert(n.children@ =~= cs0.update(j as int, pair));
                    assert forall|c2: char|
                        spec_child(n.children@, c2) == (if c2 == c {
                            Some(pair.1)
                        } else {
                            spec_child(cs0, c2)
                        }) by {
                        lemma_spec_child_update(cs0, j as int, pair, c2);
                    }
                    assert forall|s: Seq<char>|
                        n.holds(s) <==> (old(n).holds(s) || s == value@.skip(
                            pos as int,
                        )) by {
                        if s.len() == 0 {
                            assert(n.holds(s) == old(n).holds(s));
                            assert(s != value@.skip(pos as int));
                        } else if s[0] == c {
                            assert(n.holds(s) == pair.1.holds(s.drop_first()));
                            assert(old(n).holds(s) == cs0[j as int].1.holds(s.drop_first()));
                            assert(pair.1.holds(s.drop_first()) <==> cs0[j as int].1.holds(
                                s.drop_first(),
                            ) || s.drop_first() == value@.skip(pos as int + 1));
                            assert(s.drop_first() == value@.skip(pos as int + 1) <==> s == value@.skip(
                                pos as int,
                            )) by {
                                assert(s =~= seq![s[0]] + s.drop_first());
                                assert(value@.skip(pos as int) =~= seq![c] + value@.skip(
                                    pos as int + 1,
                                ));
                            }
                        } else {
                            assert(n.holds(s) == old(n).holds(s));
                            assert(s != value@.skip(pos as int));
                        }
                    }
                    assert forall|i: int|
                        0 <= i < n.children@.len() implies (#[trigger] n.children@[i]).1.wf_at(
                        path.push(n.children@[i].0),
                    ) by {
                        if i != j as int {
                            assert(n.children@[i] == cs0[i]);
                        }
                    }
                }
            },
            None => {
                let mut node = TrieNode::new();
                insert_at(&mut node, value, pos + 1);
                let ghost cs0 = n.children@;
                n.children.push((c, node));
                proof {
                    let p = (c, node);
                    assert(n.children@ =~= cs0.push(p));
                    assert forall|c2: char|
                        spec_child(n.children@, c2) == (if c2 == c {
                            Some(node)
                        } else {
                            spec_child(cs0, c2)
                        }) by {
                        lemma_spec_child_push(cs0, p, c2);
                    }
                    assert forall|s: Seq<char>|
                        n.holds(s) <==> (old(n).holds(s) || s == value@.skip(
                            pos as int,
                        )) by {
                        if s.len() == 0 {
                            assert(n.holds(s) == old(n).holds(s));
                            assert(s != value@.skip(pos as int));
                        } else if s[0] == c {
                            assert(n.holds(s) == node.holds(s.drop_first()));
                            assert(node.holds(s.drop_first()) <==> s.drop_first() == value@.skip(
                                pos as int + 1,
                            ));
                            assert(!old(n).holds(s));
                            assert(s.drop_first() == value@.skip(pos as int + 1) <==> s == value@.skip(
                                pos as int,
                            )) by {
                                assert(s =~= seq![s[0]] + s.drop_first());
                                assert(value@.skip(pos as int) =~= seq![c] + value@.skip(
                                    pos as int + 1,
                                ));
                            }
                        } else {
                            assert(n.holds(s) == old(n).holds(s));
                            assert(s != value@.skip(pos as int));
                        }
                    }
                    assert forall|i: int|
                        0 <= i < n.children@.len() implies (#[trigger] n.children@[i]).1.wf_at(
                        path.push(n.children@[i].0),
                    ) by {
                        if i < cs0.len() {
                            assert(n.children@[i] == cs0[i]);
                        } else {
                            assert(n.children@[i] == p);
                        }
                    }
                }
            },
        }
    }
}

fn contains_at(n: &TrieNode, value: &str, pos: usize) -> (r: bool)
    requires
        pos <= value@.len(),
        n.wf_at(value@.take(pos as int)),
    ensures
        r == n.holds(value@.skip(pos as int)),
    decreases value@.len() - pos,
{
    let len = value.unicode_len();
    if pos == len {
        proof {
            assert(value@.skip(pos as int) =~= Seq::<char>::empty());
            assert(value@.take(pos as int) =~= value@);
        }
        match &n.word {
            Some(w) => {
                // By the shape invariant the stored word is exactly the
                // path walked, which is exactly `value`; the equality
                // check mirrors the membership test without ever being
                // able to fail.
                let owned = value.to_owned();
                let same = owned.eq(w);
                proof {
                    assert(w@ == value@);
                }
                same
            },
            None => false,
        }
    } else {
        let c = value.get_char(pos);
        proof {
            assert(value@.skip(pos as int)[0] == c);
            assert(value@.skip(pos as int).drop_first() =~= value@.skip(pos as int + 1));
            assert(value@.take(pos as int + 1) =~= value@.take(pos as int).push(c));
        }
        match find_child(&n.children, c) {
            Some(j) => contains_at(&self_child(n, j), value, pos + 1),
            None => false,
        }
    }
}

fn self_child(n: &TrieNode, j: usize) -> (r: &TrieNode)
    requires
        j < n.children@.len(),
    ensures
        r == n.children@[j as int].1,
{
    &n.children[j].1
}

impl Trie {
    /// Whether `s` is one of the inserted words.
    pub closed spec fn has(self, s: Seq<char>) -> bool {
        self.root.holds(s)
    }

    pub closed spec fn wf(self) -> bool {
        self.root.wf_at(Seq::empty())
    }

    /// An empty tree: no word is in it.
    pub fn new() -> (r: Trie)
        ensures
            r.wf(),
            forall|s: Seq<char>| !r.has(s),
    {
        Trie { root: TrieNode::new() }
    }

    /// Add `value` to the set of words; everything already present stays.
    pub fn insert(&mut self, value: &str)
        requires
            old(self).wf(),
        ensures
            final(self).wf(),
            forall|s: Seq<char>|
                #![trigger final(self).has(s)]
                final(self).has(s) <==> old(self).has(s) || s == value@,
    {
        proof {
            assert(value@.take(0) =~= Seq::<char>::empty());
            assert(value@.skip(0) =~= value@);
        }
        insert_at(&mut self.root, value, 0);
    }

    /// Whether `value` was ever inserted.
    pub fn contains(&self, value: &str) -> (r: bool)
        requires
            self.wf(),
        ensures
            r == self.has(value@),
    {
        proof {
            assert(value@.take(0) =~= Seq::<char>::empty());
            assert(value@.skip(0) =~= value@);
        }
        contains_at(&self.root, value, 0)
    }
}

} // verus!
