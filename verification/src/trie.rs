//! The segment trie: a tree keyed by literal path segments, with at most one
//! placeholder child per node and an optional leaf at each node.

use vstd::prelude::*;
use vstd::string::*;
use crate::errors::ConfigError;
use crate::leaf::{Leaf, LeafV, RouteShape, ShapeV, leaf_applied};
use crate::paths::{is_placeholder, seq_views, str_eq};

verus! {

/// One trie node. Literal children are an association list with unique keys;
/// the placeholder child, if any, matches any single segment.
#[derive(Debug)]
pub struct Node {
    pub children: Vec<(String, Node)>,
    pub placeholder_child: Option<Box<Node>>,
    pub leaf: Option<Leaf>,
}

/// Ghost form of a trie node.
pub struct NodeV {
    pub children: Seq<(Seq<char>, NodeV)>,
    pub placeholder: Option<Box<NodeV>>,
    pub leaf: Option<LeafV>,
}

/// The first value associated with `key`, if any.
pub open spec fn assoc_lookup<T>(s: Seq<(Seq<char>, T)>, key: Seq<char>) -> Option<T>
    decreases s.len(),
{
    if s.len() == 0 {
        None
    } else if s[0].0 == key {
        Some(s[0].1)
    } else {
        assoc_lookup(s.subrange(1, s.len() as int), key)
    }
}

/// The association list with `key` now bound to `v`: the first entry under
/// `key` is replaced, or a new entry is appended.
pub open spec fn assoc_upsert<T>(s: Seq<(Seq<char>, T)>, key: Seq<char>, v: T) -> Seq<
    (Seq<char>, T),
>
    decreases s.len(),
{
    if s.len() == 0 {
        seq![(key, v)]
    } else if s[0].0 == key {
        seq![(key, v)] + s.subrange(1, s.len() as int)
    } else {
        seq![s[0]] + assoc_upsert(s.subrange(1, s.len() as int), key, v)
    }
}

pub proof fn lemma_assoc_lookup_at<T>(s: Seq<(Seq<char>, T)>, key: Seq<char>, i: int)
    requires
        0 <= i < s.len(),
        s[i].0 == key,
        forall|j: int| 0 <= j < i ==> s[j].0 != key,
    ensures
        assoc_lookup(s, key) == Some(s[i].1),
    decreases i,
{
    if i > 0 {
        lemma_assoc_lookup_at(s.subrange(1, s.len() as int), key, i - 1);
    }
}

pub proof fn lemma_assoc_lookup_absent<T>(s: Seq<(Seq<char>, T)>, key: Seq<char>)
    requires
        forall|j: int| 0 <= j < s.len() ==> s[j].0 != key,
    ensures
        assoc_lookup(s, key) is None,
    decreases s.len(),
{
    if s.len() > 0 {
        lemma_assoc_lookup_absent(s.subrange(1, s.len() as int), key);
    }
}

pub proof fn lemma_assoc_upsert_at<T>(s: Seq<(Seq<char>, T)>, key: Seq<char>, v: T, i: int)
    requires
        0 <= i < s.len(),
        s[i].0 == key,
        forall|j: int| 0 <= j < i ==> s[j].0 != key,
    ensures
        assoc_upsert(s, key, v) =~= s.update(i, (key, v)),
    decreases i,
{
    if i == 0 {
        assert(assoc_upsert(s, key, v) =~= s.update(0, (key, v)));
    } else {
        lemma_assoc_upsert_at(s.subrange(1, s.len() as int), key, v, i - 1);
        assert(s.subrange(1, s.len() as int).update(i - 1, (key, v)) =~= s.update(
            i,
            (key, v),
        ).subrange(1, s.len() as int));
        assert(assoc_upsert(s, key, v) =~= s.update(i, (key, v)));
    }
}

pub proof fn lemma_assoc_upsert_absent<T>(s: Seq<(Seq<char>, T)>, key: Seq<char>, v: T)
    requires
        forall|j: int| 0 <= j < s.len() ==> s[j].0 != key,
    ensures
        assoc_upsert(s, key, v) =~= s.push((key, v)),
    decreases s.len(),
{
    if s.len() > 0 {
        lemma_assoc_upsert_absent(s.subrange(1, s.len() as int), key, v);
        assert(assoc_upsert(s, key, v) =~= s.push((key, v)));
    }
}

/// The ghost forms of a node's literal children, keys as character sequences.
pub open spec fn children_views(cs: Seq<(String, Node)>) -> Seq<(Seq<char>, NodeV)>
    decreases cs,
{
    if cs.len() == 0 {
        Seq::empty()
    } else {
        seq![(cs[0].0@, node_view(cs[0].1))] + children_views(cs.subrange(1, cs.len() as int))
    }
}

/// The ghost form of a trie node.
pub open spec fn node_view(n: Node) -> NodeV
    decreases n,
{
    NodeV {
        children: children_views(n.children@),
        placeholder: match n.placeholder_child {
            Some(b) => Some(Box::new(node_view(*b))),
            None => None,
        },
        leaf: match n.leaf {
            Some(l) => Some(l@),
            None => None,
        },
    }
}

impl View for Node {
    type V = NodeV;

    open spec fn view(&self) -> NodeV {
        node_view(*self)
    }
}

pub proof fn lemma_children_views(cs: Seq<(String, Node)>)
    ensures
        children_views(cs).len() == cs.len(),
        forall|i: int|
            0 <= i < cs.len() ==> children_views(cs)[i] == (cs[i].0@, node_view(cs[i].1)),
    decreases cs,
{
    if cs.len() > 0 {
        lemma_children_views(cs.subrange(1, cs.len() as int));
    }
}

/// The empty trie node.
pub open spec fn empty_node() -> NodeV {
    NodeV { children: Seq::empty(), placeholder: None, leaf: None }
}

/// What a successful trie walk yields: the leaf, the placeholder captures in
/// left-to-right order, and the mount prefix when the walk was cut short at
/// a static-mount leaf.
pub struct WalkHit {
    pub leaf: LeafV,
    pub captures: Seq<Seq<char>>,
    pub static_stop: Option<Seq<char>>,
}

/// The trie walk: per segment, a literal child is preferred, then the
/// placeholder child (capturing the segment's text); failing both, a leaf
/// carrying a static mount at the current node ends the walk successfully,
/// and anything else is a miss. A walk that consumes every segment needs a
/// leaf at the final node.
pub open spec fn walk(n: NodeV, segs: Seq<Seq<char>>) -> Option<WalkHit>
    decreases segs.len(),
{
    if segs.len() == 0 {
        match n.leaf {
            Some(l) => Some(WalkHit { leaf: l, captures: Seq::empty(), static_stop: None }),
            None => None,
        }
    } else {
        let seg = segs[0];
        match assoc_lookup(n.children, seg) {
            Some(c) => walk(c, segs.subrange(1, segs.len() as int)),
            None => match n.placeholder {
                Some(c) => match walk(*c, segs.subrange(1, segs.len() as int)) {
                    Some(hit) => Some(WalkHit { captures: seq![seg] + hit.captures, ..hit }),
                    None => None,
                },
                None => match n.leaf {
                    Some(l) => match l.static_path {
                        Some(sp) => Some(
                            WalkHit { leaf: l, captures: Seq::empty(), static_stop: Some(sp) },
                        ),
                        None => None,
                    },
                    None => None,
                },
            },
        }
    }
}

/// One route merged into the trie below `n`, along the classified segments:
/// literal segments descend into (or create) the literal child, placeholder
/// segments the placeholder child, and the leaf at the final node receives
/// the route as `leaf_applied` states. `Err` is the schema conflict, and
/// leaves no trace.
pub open spec fn trie_applied(
    n: NodeV,
    segs: Seq<Seq<char>>,
    params: Seq<Seq<char>>,
    in_static: bool,
    path: Seq<char>,
    shape: ShapeV,
) -> Result<NodeV, ConfigError>
    decreases segs.len(),
{
    if segs.len() == 0 {
        match leaf_applied(n.leaf, params, in_static, path, shape) {
            Ok(l) => Ok(NodeV { leaf: Some(l), ..n }),
            Err(e) => Err(e),
        }
    } else {
        let seg = segs[0];
        if is_placeholder(seg, params) {
            let child = match n.placeholder {
                Some(c) => *c,
                None => empty_node(),
            };
            match trie_applied(
                child,
                segs.subrange(1, segs.len() as int),
                params,
                in_static,
                path,
                shape,
            ) {
                Ok(c2) => Ok(NodeV { placeholder: Some(Box::new(c2)), ..n }),
                Err(e) => Err(e),
            }
        } else {
            let child = match assoc_lookup(n.children, seg) {
                Some(c) => c,
                None => empty_node(),
            };
            match trie_applied(
                child,
                segs.subrange(1, segs.len() as int),
                params,
                in_static,
                path,
                shape,
            ) {
                Ok(c2) => Ok(NodeV { children: assoc_upsert(n.children, seg, c2), ..n }),
                Err(e) => Err(e),
            }
        }
    }
}

/// The outcome of an executable trie walk: a leaf reached by consuming every
/// segment, a leaf reached by stopping at a static mount, or a miss.
pub enum WalkOutcome<'a> {
    Found { leaf: &'a Leaf, captures: Vec<String> },
    StaticStop { leaf: &'a Leaf, captures: Vec<String> },
    Miss,
}

impl Node {
    /// A node with no children, no placeholder child and no leaf.
    pub fn new() -> (r: Node)
        ensures
            r@ == empty_node(),
    {
        let r = Node { children: Vec::new(), placeholder_child: None, leaf: None };
        proof {
            lemma_children_views(r.children@);
            assert(r@.children =~= Seq::<(Seq<char>, NodeV)>::empty());
        }
        r
    }

    /// The index of the first literal child keyed by `seg`.
    fn find_child_index(&self, seg: &str) -> (r: Option<usize>)
        ensures
            match r {
                Some(i) => i < self.children@.len() && self.children@[i as int].0@ == seg@ && (
                forall|j: int| 0 <= j < i ==> self.children@[j].0@ != seg@),
                None => forall|j: int|
                    0 <= j < self.children@.len() ==> self.children@[j].0@ != seg@,
            },
    {
        let mut i: usize = 0;
        while i < self.children.len()
            invariant
                i <= self.children@.len(),
                forall|j: int| 0 <= j < i ==> self.children@[j].0@ != seg@,
            decreases self.children@.len() - i,
        {
            if str_eq(self.children[i].0.as_str(), seg) {
                return Some(i);
            }
            i += 1;
        }
        None
    }

    /// Merges one route into the trie below this node, as `trie_applied`
    /// states over the ghost forms; on a conflict nothing changes.
    pub fn apply_route(
        &mut self,
        segs: &Vec<String>,
        idx: usize,
        params: &Vec<String>,
        in_static: bool,
        path: &str,
        shape: &RouteShape,
    ) -> (r: Result<(), ConfigError>)
        requires
            idx <= segs@.len(),
        ensures
            match trie_applied(
                old(self)@,
                seq_views(segs@).subrange(idx as int, segs@.len() as int),
                seq_views(params@),
                in_static,
                path@,
                shape@,
            ) {
                Ok(n2) => r is Ok && final(self)@ == n2,
                Err(e) => r == Err::<(), ConfigError>(e) && final(self)@ == old(self)@,
            },
        decreases segs@.len() - idx,
    {
        let ghost rest = seq_views(segs@).subrange(idx as int, segs@.len() as int);
        if idx == segs.len() {
            proof {
                assert(rest.len() == 0);
            }
            self.apply_leaf(params, in_static, path, shape)
        } else {
            let seg: &str = segs[idx].as_str();
            let ghost tail = seq_views(segs@).subrange(idx as int + 1, segs@.len() as int);
            proof {
                assert(rest[0] == seg@);
                assert(rest.subrange(1, rest.len() as int) =~= tail);
            }
            if crate::paths::seg_is_placeholder(seg, params) {
                let taken: Option<Box<Node>> = self.placeholder_child.take();
                let had: bool = taken.is_some();
                let mut child: Node = match taken {
                    Some(b) => *b,
                    None => Node::new(),
                };
                let res = child.apply_route(segs, idx + 1, params, in_static, path, shape);
                match res {
                    Ok(()) => {
                        self.placeholder_child = Some(Box::new(child));
                        Ok(())
                    },
                    Err(e) => {
                        if had {
                            self.placeholder_child = Some(Box::new(child));
                        }
                        Err(e)
                    },
                }
            } else {
                proof {
                    lemma_children_views(self.children@);
                }
                match self.find_child_index(seg) {
                    Some(i) => {
                        proof {
                            lemma_assoc_lookup_at(old(self)@.children, seg@, i as int);
                        }
                        let (key, mut child) = self.children.remove(i);
                        let res = child.apply_route(segs, idx + 1, params, in_static, path, shape);
                        let is_ok = res.is_ok();
                        let ghost keyv = key@;
                        let ghost childv = child@;
                        self.children.insert(i, (key, child));
                        proof {
                            lemma_children_views(self.children@);
                            if is_ok {
                                lemma_assoc_upsert_at(old(self)@.children, seg@, childv, i as int);
                                assert(children_views(self.children@) =~= assoc_upsert(
                                    old(self)@.children,
                                    seg@,
                                    childv,
                                ));
                            } else {
                                assert(children_views(self.children@) =~= children_views(
                                    old(self).children@,
                                ));
                            }
                        }
                        res
                    },
                    None => {
                        proof {
                            lemma_assoc_lookup_absent(old(self)@.children, seg@);
                        }
                        let mut child = Node::new();
                        let res = child.apply_route(segs, idx + 1, params, in_static, path, shape);
                        match res {
                            Ok(()) => {
                                let key = String::from_str(seg);
                                let ghost childv = child@;
                                self.children.push((key, child));
                                proof {
                                    lemma_assoc_upsert_absent(old(self)@.children, seg@, childv);
                                    lemma_children_views(self.children@);
                                    assert(children_views(self.children@) =~= assoc_upsert(
                                        old(self)@.children,
                                        seg@,
                                        childv,
                                    ));
                                }
                                Ok(())
                            },
                            Err(e) => Err(e),
                        }
                    },
                }
            }
        }
    }

    /// Appends a diagnostic sketch of this subtree to `out`: `#` marks a
    /// leaf, a literal child is its key in parentheses, the placeholder
    /// child is `{*}`. The textual form carries no stability guarantee.
    pub fn dump(&self, out: &mut String)
        decreases *self,
    {
        if self.leaf.is_some() {
            out.append("#");
        }
        let mut i: usize = 0;
        while i < self.children.len()
            decreases self.children.len() - i,
        {
            out.append("(");
            out.append(self.children[i].0.as_str());
            out.append(":");
            proof {
                assert(decreases_to!(*self => self.children));
                assert(decreases_to!(self.children => self.children@));
                assert(decreases_to!(self.children@ => self.children@[i as int]));
                assert(decreases_to!(self.children@[i as int] => self.children@[i as int].1));
            }
            self.children[i].1.dump(out);
            out.append(")");
            i += 1;
        }
        match &self.placeholder_child {
            Some(b) => {
                out.append("{*}(");
                proof {
                    assert(decreases_to!(*self => self.placeholder_child));
                }
                (&**b).dump(out);
                out.append(")");
            },
            None => {},
        }
    }

    /// Walks the trie over `segs`, as `walk` states over the ghost forms.
    /// A cut-short walk at a static-mount leaf is reported apart, with the
    /// leaf that carries the mount prefix.
    pub fn walk_path<'a>(&'a self, segs: &Vec<String>) -> (r: WalkOutcome<'a>)
        ensures
            (match (walk(self@, seq_views(segs@)), r) {
                (Some(hit), WalkOutcome::Found { leaf, captures }) => hit.static_stop is None
                    && leaf@ == hit.leaf && seq_views(captures@) == hit.captures,
                (Some(hit), WalkOutcome::StaticStop { leaf, captures }) => leaf@ == hit.leaf
                    && seq_views(captures@) == hit.captures && hit.static_stop is Some && leaf@.static_path
                    == hit.static_stop,
                (None, WalkOutcome::Miss) => true,
                _ => false,
            }),
    {
        let ghost all = seq_views(segs@);
        let mut node: &Node = self;
        let mut captures: Vec<String> = Vec::new();
        let mut i: usize = 0;
        proof {
            assert(all.subrange(0, all.len() as int) =~= all);
            assert(seq_views(captures@) =~= Seq::<Seq<char>>::empty());
        }
        while i < segs.len()
            invariant
                i <= segs@.len(),
                all == seq_views(segs@),
                (match walk(node@, all.subrange(i as int, all.len() as int)) {
                    Some(hit) => walk(self@, all) == Some(
                        WalkHit {
                            leaf: hit.leaf,
                            captures: seq_views(captures@) + hit.captures,
                            static_stop: hit.static_stop,
                        },
                    ),
                    None => walk(self@, all) is None,
                }),
            decreases segs@.len() - i,
        {
            let seg: &str = segs[i].as_str();
            let ghost restv = all.subrange(i as int, all.len() as int);
            let ghost tailv = all.subrange(i as int + 1, all.len() as int);
            proof {
                assert(restv[0] == seg@);
                assert(restv.subrange(1, restv.len() as int) =~= tailv);
                lemma_children_views(node.children@);
            }
            match node.find_child_index(seg) {
                Some(ci) => {
                    proof {
                        lemma_assoc_lookup_at(node@.children, seg@, ci as int);
                    }
                    node = &node.children[ci].1;
                },
                None => {
                    proof {
                        lemma_assoc_lookup_absent(node@.children, seg@);
                    }
                    match &node.placeholder_child {
                        Some(b) => {
                            let ghost caps0 = seq_views(captures@);
                            captures.push(String::from_str(seg));
                            proof {
                                assert(seq_views(captures@) =~= caps0.push(seg@));
                                assert forall|hc: Seq<Seq<char>>|
                                    caps0 + (seq![seg@] + hc) == #[trigger] (caps0.push(seg@)
                                        + hc) by {
                                    assert(caps0 + (seq![seg@] + hc) =~= caps0.push(seg@) + hc);
                                }
                            }
                            node = &**b;
                        },
                        None => {
                            match &node.leaf {
                                Some(l) => {
                                    match &l.static_path {
                                        Some(_) => {
                                            proof {
                                                assert(seq_views(captures@) + Seq::<
                                                    Seq<char>,
                                                >::empty() =~= seq_views(captures@));
                                            }
                                            return WalkOutcome::StaticStop { leaf: l, captures };
                                        },
                                        None => {
                                            return WalkOutcome::Miss;
                                        },
                                    }
                                },
                                None => {
                                    return WalkOutcome::Miss;
                                },
                            }
                        },
                    }
                },
            }
            i += 1;
        }
        proof {
            assert(all.subrange(i as int, all.len() as int) =~= Seq::<Seq<char>>::empty());
        }
        match &node.leaf {
            Some(l) => {
                proof {
                    assert(seq_views(captures@) + Seq::<Seq<char>>::empty() =~= seq_views(
                        captures@,
                    ));
                }
                WalkOutcome::Found { leaf: l, captures }
            },
            None => WalkOutcome::Miss,
        }
    }

    /// Merges the route into this node's own leaf, creating it if absent;
    /// on a schema conflict nothing changes.
    fn apply_leaf(
        &mut self,
        params: &Vec<String>,
        in_static: bool,
        path: &str,
        shape: &RouteShape,
    ) -> (r: Result<(), ConfigError>)
        ensures
            match leaf_applied(old(self)@.leaf, seq_views(params@), in_static, path@, shape@) {
                Ok(l) => r is Ok && final(self)@ == (NodeV { leaf: Some(l), ..old(self)@ }),
                Err(e) => r == Err::<(), ConfigError>(e) && final(self)@ == old(self)@,
            },
    {
        let conflict: bool = match self.leaf.as_ref() {
            Some(l) => !l.schema_matches(params),
            None => false,
        };
        if conflict {
            return Err(ConfigError::ConflictingPathParameters);
        }
        let taken: Option<Leaf> = self.leaf.take();
        let mut l: Leaf = match taken {
            Some(l) => l,
            None => Leaf::new(crate::paths::clone_strings(params)),
        };
        crate::leaf::apply_shape(&mut l, in_static, path, shape);
        self.leaf = Some(l);
        Ok(())
    }
}

} // verus!
