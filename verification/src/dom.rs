//! Arena model of the document tree.
//!
//! Nodes live in one growable arena and are addressed by stable indices
//! ([`crate::handle::Handle`] wraps such an index). Nodes are never freed
//! individually: unlinking and reparenting only rewire parent/child links,
//! and the whole tree is released at once when the arena is dropped.

use vstd::prelude::*;

verus! {

/// Namespace plus local name of an element or attribute. A prefix is not
/// propagated to the tree.
#[derive(Debug)]
pub struct QualifiedName {
    pub ns: String,
    pub local: String,
}

/// One attribute: qualified name plus string value.
#[derive(Debug)]
pub struct Attribute {
    pub name: QualifiedName,
    pub value: String,
}

/// What a node is, together with the payload that kind of node carries.
/// Element attributes are kept separately in [`Dom::attrs`], since they can
/// still change after creation.
#[derive(Debug)]
pub enum NodeData {
    /// The single root; always node 0.
    Document,
    /// An element; `name` is its local name.
    Element { name: String },
    Text { text: String },
    Comment { text: String },
    ProcessingInstruction { target: String, data: String },
    /// The document's internal subset declaration. Absent external
    /// identifiers are `None`, distinct from present-but-empty strings.
    Doctype { name: String, public_id: Option<String>, system_id: Option<String> },
    /// A fragment holding a template's logical content subtree.
    Fragment,
}

/// The document tree: parallel arrays indexed by node. Slot 0 is the
/// document root. `parent[i]` and `children[i]` mirror each other, and a
/// node appears at most once as a child.
#[derive(Debug)]
pub struct Dom {
    pub data: Vec<NodeData>,
    pub parent: Vec<Option<usize>>,
    pub children: Vec<Vec<usize>>,
    pub attrs: Vec<Vec<Attribute>>,
}

impl Dom {
    /// Number of nodes allocated so far.
    pub open spec fn spec_len(self) -> int {
        self.data@.len() as int
    }

    /// Whether `h` denotes an allocated node.
    pub open spec fn valid(self, h: int) -> bool {
        0 <= h < self.spec_len()
    }

    /// The child list of node `p`, in order.
    pub open spec fn child_seq(self, p: int) -> Seq<usize> {
        self.children@[p]@
    }

    /// The attribute list of node `h`, in order of application.
    pub open spec fn attr_seq(self, h: int) -> Seq<Attribute> {
        self.attrs@[h]@
    }

    /// The child list of node `q` as it stands once `c` is unlinked from
    /// its parent: unchanged unless `q` is that parent, in which case `c`'s
    /// one occurrence is gone.
    pub open spec fn child_seq_unlinked(self, q: usize, c: usize) -> Seq<usize> {
        if self.parent@[c as int] == Some(q) {
            self.child_seq(q as int).remove_value(c)
        } else {
            self.child_seq(q as int)
        }
    }

    /// Well-formedness: the parallel arrays agree in length, node 0 is the
    /// (never linked) document, every child link has a matching parent link
    /// and vice versa, and no node is listed twice as a child.
    pub open spec fn wf(self) -> bool {
        &&& self.parent@.len() == self.data@.len()
        &&& self.children@.len() == self.data@.len()
        &&& self.attrs@.len() == self.data@.len()
        &&& self.spec_len() >= 1
        &&& self.data@[0] is Document
        &&& self.parent@[0] is None
        &&& (forall|p: usize, j: int|
            (p as int) < self.spec_len() && 0 <= j < self.child_seq(p as int).len() ==> {
                let c = #[trigger] self.child_seq(p as int)[j];
                &&& (c as int) < self.spec_len()
                &&& self.parent@[c as int] == Some(p)
            })
        &&& (forall|c: usize|
            (c as int) < self.spec_len() ==> ((#[trigger] self.parent@[c as int]) matches Some(p)
                ==> (p as int) < self.spec_len() && self.child_seq(p as int).contains(c)))
        &&& (forall|p: usize|
            (p as int) < self.spec_len() ==> (#[trigger] self.child_seq(
                p as int,
            )).no_duplicates())
    }

    /// A fresh tree holding only the document root.
    pub fn new() -> (r: Dom)
        ensures
            r.wf(),
            r.spec_len() == 1,
            r.data@[0] is Document,
            r.child_seq(0).len() == 0,
            r.attr_seq(0).len() == 0,
    {
        let mut data: Vec<NodeData> = Vec::new();
        data.push(NodeData::Document);
        let mut parent: Vec<Option<usize>> = Vec::new();
        parent.push(None);
        let mut children: Vec<Vec<usize>> = Vec::new();
        children.push(Vec::new());
        let mut attrs: Vec<Vec<Attribute>> = Vec::new();
        attrs.push(Vec::new());
        let r = Dom { data, parent, children, attrs };
        assert(r.child_seq(0).len() == 0);
        assert(r.wf());
        r
    }

    /// Allocates a detached node carrying `data` and `attrs`; returns its
    /// index. Existing nodes and links are untouched.
    pub fn new_node(&mut self, data: NodeData, attrs: Vec<Attribute>) -> (h: usize)
        requires
            old(self).wf(),
        ensures
            final(self).wf(),
            h == old(self).spec_len(),
            final(self).spec_len() == old(self).spec_len() + 1,
            final(self).data@ == old(self).data@.push(data),
            final(self).parent@ == old(self).parent@.push(None),
            final(self).attrs@ == old(self).attrs@.push(attrs),
            forall|q: int|
                0 <= q < old(self).spec_len() ==> #[trigger] final(self).children@[q] == old(self).children@[q],
            forall|q: int|
                0 <= q < old(self).spec_len() ==> final(self).child_seq(q) == old(self).child_seq(
                    q,
                ),
            forall|q: int|
                0 <= q < old(self).spec_len() ==> final(self).attr_seq(q) == old(self).attr_seq(q),
            final(self).child_seq(h as int).len() == 0,
            final(self).attr_seq(h as int) == attrs@,
    {
        let h = self.data.len();
        self.data.push(data);
        self.parent.push(None);
        self.children.push(Vec::new());
        self.attrs.push(attrs);
        proof {
            let pre = *old(self);
            let post = *self;
            assert forall|q: int| 0 <= q < pre.spec_len() implies post.child_seq(q)
                == pre.child_seq(q) by {
                assert(post.children@[q] == pre.children@[q]);
            }
            assert(post.child_seq(h as int).len() == 0);
            assert(post.wf()) by {
                assert forall|p: usize, j: int|
                    (p as int) < post.spec_len() && 0 <= j < post.child_seq(p as int).len()
                        implies {
                        let c = #[trigger] post.child_seq(p as int)[j];
                        &&& (c as int) < post.spec_len()
                        &&& post.parent@[c as int] == Some(p)
                    } by {
                    if (p as int) < pre.spec_len() {
                        assert(post.child_seq(p as int) == pre.child_seq(p as int));
                        assert(pre.child_seq(p as int)[j] == post.child_seq(p as int)[j]);
                    }
                }
                assert forall|p: usize| (p as int) < post.spec_len()
                    implies (#[trigger] post.child_seq(p as int)).no_duplicates() by {
                    if (p as int) < pre.spec_len() {
                        assert(post.child_seq(p as int) == pre.child_seq(p as int));
                    }
                }
            }
        }
        h
    }

    /// A node without a parent link stands in no child list.
    proof fn lemma_unparented_not_a_child(self, c: usize)
        requires
            self.wf(),
            self.valid(c as int),
            self.parent@[c as int] is None,
        ensures
            forall|q: usize|
                (q as int) < self.spec_len() ==> !(#[trigger] self.child_seq(q as int)).contains(
                    c,
                ),
    {
        assert forall|q: usize| (q as int) < self.spec_len() implies !(#[trigger] self.child_seq(
            q as int,
        )).contains(c) by {
            if self.child_seq(q as int).contains(c) {
                let j = choose|j: int|
                    0 <= j < self.child_seq(q as int).len() && self.child_seq(q as int)[j] == c;
                assert(self.parent@[c as int] == Some(q));
            }
        }
    }

    /// Links the detached node `c` as the last child of `p`.
    pub fn link_last(&mut self, p: usize, c: usize)
        requires
            old(self).wf(),
            old(self).valid(p as int),
            old(self).valid(c as int),
            old(self).parent@[c as int] is None,
            c != 0,
        ensures
            final(self).wf(),
            final(self).data@ == old(self).data@,
            final(self).attrs@ == old(self).attrs@,
            final(self).parent@ == old(self).parent@.update(c as int, Some(p)),
            final(self).children@.len() == old(self).children@.len(),
            final(self).child_seq(p as int) == old(self).child_seq(p as int).push(c),
            forall|q: int|
                0 <= q < old(self).spec_len() && q != p as int ==> #[trigger] final(self).children@[q] == old(self).children@[q],
            forall|q: int|
                0 <= q < old(self).spec_len() && q != p as int ==> final(self).child_seq(q) == old(self).child_seq(q),
    {
        proof {
            old(self).lemma_unparented_not_a_child(c);
        }
        self.children[p].push(c);
        self.parent.set(c, Some(p));
        proof {
            let pre = *old(self);
            let post = *self;
            assert forall|q: int| 0 <= q < pre.spec_len() && q != p as int
                implies post.child_seq(q) == pre.child_seq(q) by {
                assert(post.children@[q] == pre.children@[q]);
            }
            assert(post.child_seq(p as int) == pre.child_seq(p as int).push(c));
            assert(post.wf()) by {
                assert forall|q: usize, j: int|
                    (q as int) < post.spec_len() && 0 <= j < post.child_seq(q as int).len()
                        implies {
                        let e = #[trigger] post.child_seq(q as int)[j];
                        &&& (e as int) < post.spec_len()
                        &&& post.parent@[e as int] == Some(q)
                    } by {
                    if q == p && j == pre.child_seq(p as int).len() {
                        assert(post.child_seq(q as int)[j] == c);
                    } else {
                        assert(post.child_seq(q as int)[j] == pre.child_seq(q as int)[j]);
                        assert(!pre.child_seq(q as int).contains(c));
                        assert(pre.child_seq(q as int)[j] != c);
                    }
                }
                assert forall|e: usize|
                    (e as int) < post.spec_len() implies ((#[trigger] post.parent@[e as int])
                    matches Some(q) ==> (q as int) < post.spec_len() && post.child_seq(
                    q as int,
                ).contains(e)) by {
                    match post.parent@[e as int] {
                        Some(q) => {
                            if e == c {
                                assert(post.child_seq(p as int)[pre.child_seq(
                                    p as int,
                                ).len() as int] == c);
                            } else {
                                assert(pre.parent@[e as int] == post.parent@[e as int]);
                                assert(pre.child_seq(q as int).contains(e));
                                let k = choose|k: int|
                                    0 <= k < pre.child_seq(q as int).len() && pre.child_seq(
                                        q as int,
                                    )[k] == e;
                                assert(post.child_seq(q as int)[k] == e);
                            }
                        },
                        None => {},
                    }
                }
                assert forall|q: usize| (q as int) < post.spec_len()
                    implies (#[trigger] post.child_seq(q as int)).no_duplicates() by {
                    if q == p {
                        let s = pre.child_seq(p as int);
                        assert(!s.contains(c));
                        assert forall|j1: int, j2: int|
                            0 <= j1 < post.child_seq(q as int).len() && 0 <= j2 < post.child_seq(
                                q as int,
                            ).len() && j1 != j2 implies post.child_seq(q as int)[j1]
                            != post.child_seq(q as int)[j2] by {
                            if j1 < s.len() && j2 < s.len() {
                                assert(s.no_duplicates());
                                assert(s[j1] != s[j2]);
                            } else if j1 < s.len() {
                                assert(post.child_seq(q as int)[j1] == s[j1]);
                                assert(s[j1] != c);
                            } else if j2 < s.len() {
                                assert(post.child_seq(q as int)[j2] == s[j2]);
                                assert(s[j2] != c);
                            }
                        }
                    } else {
                        assert(post.child_seq(q as int) == pre.child_seq(q as int));
                    }
                }
            }
        }
    }

    /// Unlinks `c` from its parent, if it has one. The node stays allocated
    /// and keeps its own children; it is eligible for re-insertion.
    pub fn unlink(&mut self, c: usize)
        requires
            old(self).wf(),
            old(self).valid(c as int),
        ensures
            final(self).wf(),
            final(self).data@ == old(self).data@,
            final(self).attrs@ == old(self).attrs@,
            final(self).parent@ == old(self).parent@.update(c as int, None),
            final(self).children@.len() == old(self).children@.len(),
            old(self).parent@[c as int] matches Some(p) ==> final(self).child_seq(p as int) == old(self).child_seq(p as int).remove_value(c),
            forall|q: int|
                0 <= q < old(self).spec_len() && old(self).parent@[c as int] != Some(q as usize)
                    ==> #[trigger] final(self).children@[q] == old(self).children@[q],
            forall|q: int|
                0 <= q < old(self).spec_len() && old(self).parent@[c as int] != Some(q as usize)
                    ==> final(self).child_seq(q) == old(self).child_seq(q),
    {
        let po = self.parent[c];
        match po {
            None => {
                proof {
                    assert(self.parent@.update(c as int, None) =~= self.parent@);
                }
            },
            Some(p) => {
                proof {
                    assert(old(self).child_seq(p as int).contains(c));
                }
                let j = index_of_first_exec(&self.children[p], c);
                self.children[p].remove(j);
                self.parent.set(c, None);
                proof {
                    let pre = *old(self);
                    let post = *self;
                    let s = pre.child_seq(p as int);
                    s.index_of_first_ensures(c);
                    let fst = s.index_of_first(c).unwrap();
                    assert(fst == j as int) by {
                        if fst < j as int {
                            assert(s[fst] == c);
                        }
                        if fst > j as int {
                            assert(s[j as int] == c);
                        }
                    }
                    assert(post.child_seq(p as int) == s.remove(j as int));
                    assert(post.child_seq(p as int) == s.remove_value(c));
                    s.remove_ensures(j as int);
                    assert forall|k: int| 0 <= k < s.len() && k != j as int implies s[k] != c by {
                        assert(s.no_duplicates());
                        assert(s[j as int] == c);
                    }
                    assert forall|q: int|
                        0 <= q < pre.spec_len() && pre.parent@[c as int] != Some(q as usize)
                            implies post.child_seq(q) == pre.child_seq(q) by {
                        assert(post.children@[q] == pre.children@[q]);
                    }
                    assert(post.wf()) by {
                        assert forall|q: usize, jj: int|
                            (q as int) < post.spec_len() && 0 <= jj < post.child_seq(
                                q as int,
                            ).len() implies {
                            let e = #[trigger] post.child_seq(q as int)[jj];
                            &&& (e as int) < post.spec_len()
                            &&& post.parent@[e as int] == Some(q)
                        } by {
                            let e = post.child_seq(q as int)[jj];
                            if q == p {
                                if jj < j as int {
                                    assert(e == s[jj]);
                                } else {
                                    assert(e == s[jj + 1]);
                                }
                                assert(e != c);
                                assert(pre.parent@[e as int] == Some(p));
                            } else {
                                assert(post.child_seq(q as int)[jj] == pre.child_seq(q as int)[jj]);
                                let e2 = pre.child_seq(q as int)[jj];
                                assert(pre.parent@[e2 as int] == Some(q));
                                assert(e2 != c);
                            }
                        }
                        assert forall|e: usize|
                            (e as int) < post.spec_len() implies ((
                        #[trigger] post.parent@[e as int]) matches Some(q) ==> (q as int)
                            < post.spec_len() && post.child_seq(q as int).contains(e)) by {
                            match post.parent@[e as int] {
                                Some(q) => {
                                    assert(e != c);
                                    assert(pre.parent@[e as int] == Some(q));
                                    assert(pre.child_seq(q as int).contains(e));
                                    let k = choose|k: int|
                                        0 <= k < pre.child_seq(q as int).len() && pre.child_seq(
                                            q as int,
                                        )[k] == e;
                                    if q == p {
                                        assert(s[k] == e);
                                        assert(k != j as int);
                                        if k < j as int {
                                            assert(post.child_seq(q as int)[k] == e);
                                        } else {
                                            assert(post.child_seq(q as int)[k - 1] == s[k]);
                                        }
                                    } else {
                                        assert(post.child_seq(q as int)[k] == e);
                                    }
                                },
                                None => {},
                            }
                        }
                        assert forall|q: usize| (q as int) < post.spec_len()
                            implies (#[trigger] post.child_seq(q as int)).no_duplicates() by {
                            if q == p {
                                let t = post.child_seq(q as int);
                                assert forall|j1: int, j2: int|
                                    0 <= j1 < t.len() && 0 <= j2 < t.len() && j1 != j2
                                        implies t[j1] != t[j2] by {
                                    let i1: int = if j1 < j as int {
                                        j1
                                    } else {
                                        j1 + 1
                                    };
                                    let i2: int = if j2 < j as int {
                                        j2
                                    } else {
                                        j2 + 1
                                    };
                                    assert(t[j1] == s[i1]);
                                    assert(t[j2] == s[i2]);
                                    assert(s.no_duplicates());
                                }
                            } else {
                                assert(post.child_seq(q as int) == pre.child_seq(q as int));
                            }
                        }
                    }
                }
            },
        }
    }
    /// Inserts the detached node `c` immediately before `sib` in the child
    /// list of `sib`'s parent.
    pub fn insert_before(&mut self, sib: usize, c: usize)
        requires
            old(self).wf(),
            old(self).valid(sib as int),
            old(self).valid(c as int),
            old(self).parent@[sib as int] is Some,
            old(self).parent@[c as int] is None,
            c != 0,
        ensures
            final(self).wf(),
            final(self).data@ == old(self).data@,
            final(self).attrs@ == old(self).attrs@,
            final(self).children@.len() == old(self).children@.len(),
            old(self).parent@[sib as int] matches Some(p) ==> {
                &&& final(self).parent@ == old(self).parent@.update(c as int, Some(p))
                &&& final(self).child_seq(p as int) == old(self).child_seq(p as int).insert(
                    old(self).child_seq(p as int).index_of_first(sib).unwrap(),
                    c,
                )
                &&& forall|q: int|
                    0 <= q < old(self).spec_len() && q != p as int ==> #[trigger] final(self).children@[q] == old(self).children@[q]
                &&& forall|q: int|
                    0 <= q < old(self).spec_len() && q != p as int ==> final(self).child_seq(q)
                        == old(self).child_seq(q)
            },
    {
        let p = self.parent[sib].unwrap();
        proof {
            assert(old(self).child_seq(p as int).contains(sib));
            old(self).lemma_unparented_not_a_child(c);
        }
        let j = index_of_first_exec(&self.children[p], sib);
        self.children[p].insert(j, c);
        self.parent.set(c, Some(p));
        proof {
            let pre = *old(self);
            let post = *self;
            let s = pre.child_seq(p as int);
            s.index_of_first_ensures(sib);
            let fst = s.index_of_first(sib).unwrap();
            assert(fst == j as int) by {
                if fst < j as int {
                    assert(s[fst] == sib);
                }
                if fst > j as int {
                    assert(s[j as int] == sib);
                }
            }
            assert(post.child_seq(p as int) == s.insert(j as int, c));
            s.insert_ensures(j as int, c);
            assert forall|q: int| 0 <= q < pre.spec_len() && q != p as int
                implies post.child_seq(q) == pre.child_seq(q) by {
                assert(post.children@[q] == pre.children@[q]);
            }
            assert(post.wf()) by {
                assert forall|q: usize, jj: int|
                    (q as int) < post.spec_len() && 0 <= jj < post.child_seq(q as int).len()
                        implies {
                        let e = #[trigger] post.child_seq(q as int)[jj];
                        &&& (e as int) < post.spec_len()
                        &&& post.parent@[e as int] == Some(q)
                    } by {
                    let e = post.child_seq(q as int)[jj];
                    if q == p {
                        if jj == j as int {
                            assert(e == c);
                            assert(post.parent@[c as int] == Some(p));
                        } else {
                            if jj < j as int {
                                assert(e == s[jj]);
                            } else {
                                assert(e == s[jj - 1]);
                            }
                            assert(pre.parent@[e as int] == Some(p));
                            assert(e != c);
                        }
                    } else {
                        assert(post.child_seq(q as int)[jj] == pre.child_seq(q as int)[jj]);
                        let e2 = pre.child_seq(q as int)[jj];
                        assert(pre.parent@[e2 as int] == Some(q));
                        assert(e2 != c);
                    }
                }
                assert forall|e: usize|
                    (e as int) < post.spec_len() implies ((#[trigger] post.parent@[e as int])
                    matches Some(q) ==> (q as int) < post.spec_len() && post.child_seq(
                    q as int,
                ).contains(e)) by {
                    match post.parent@[e as int] {
                        Some(q) => {
                            if e == c {
                                assert(post.child_seq(p as int)[j as int] == c);
                            } else {
                                assert(pre.parent@[e as int] == Some(q));
                                assert(pre.child_seq(q as int).contains(e));
                                let k = choose|k: int|
                                    0 <= k < pre.child_seq(q as int).len() && pre.child_seq(
                                        q as int,
                                    )[k] == e;
                                if q == p {
                                    if k < j as int {
                                        assert(post.child_seq(q as int)[k] == s[k]);
                                    } else {
                                        assert(post.child_seq(q as int)[k + 1] == s[k]);
                                    }
                                } else {
                                    assert(post.child_seq(q as int)[k] == e);
                                }
                            }
                        },
                        None => {},
                    }
                }
                assert forall|q: usize| (q as int) < post.spec_len()
                    implies (#[trigger] post.child_seq(q as int)).no_duplicates() by {
                    if q == p {
                        let t = post.child_seq(q as int);
                        assert(!s.contains(c));
                        assert forall|j1: int, j2: int|
                            0 <= j1 < t.len() && 0 <= j2 < t.len() && j1 != j2 implies t[j1]
                            != t[j2] by {
                            if j1 != j as int && j2 != j as int {
                                let i1: int = if j1 < j as int {
                                    j1
                                } else {
                                    j1 - 1
                                };
                                let i2: int = if j2 < j as int {
                                    j2
                                } else {
                                    j2 - 1
                                };
                                assert(t[j1] == s[i1]);
                                assert(t[j2] == s[i2]);
                                assert(s.no_duplicates());
                            } else if j1 == j as int {
                                assert(t[j1] == c);
                                let i2: int = if j2 < j as int {
                                    j2
                                } else {
                                    j2 - 1
                                };
                                assert(t[j2] == s[i2]);
                                assert(s[i2] != c);
                            } else {
                                assert(t[j2] == c);
                                let i1: int = if j1 < j as int {
                                    j1
                                } else {
                                    j1 - 1
                                };
                                assert(t[j1] == s[i1]);
                                assert(s[i1] != c);
                            }
                        }
                    } else {
                        assert(post.child_seq(q as int) == pre.child_seq(q as int));
                    }
                }
            }
        }
    }
}

/// First position of `x` in `list`, which must contain it.
fn index_of_first_exec(list: &Vec<usize>, x: usize) -> (j: usize)
    requires
        list@.contains(x),
    ensures
        j < list@.len(),
        list@[j as int] == x,
        forall|k: int| 0 <= k < j ==> list@[k] != x,
        list@.index_of_first(x) == Some(j as int),
{
    let n = list.len();
    let mut j: usize = 0;
    loop
        invariant
            list@.contains(x),
            n == list@.len(),
            j <= n,
            forall|k: int| 0 <= k < j ==> list@[k] != x,
        decreases list@.len() - j,
    {
        proof {
            let w = choose|w: int| 0 <= w < list@.len() && list@[w] == x;
            assert(w >= j);
        }
        if list[j] == x {
            proof {
                list@.index_of_first_ensures(x);
                let fst = list@.index_of_first(x).unwrap();
                if fst < j as int {
                    assert(list@[fst] == x);
                }
                if fst > j as int {
                    assert(list@[j as int] == x);
                }
            }
            return j;
        }
        j += 1;
    }
}

} // verus!
