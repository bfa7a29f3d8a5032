//! Routing of request paths to handlers: a tree of path segments whose nodes
//! may hold a handler.  The nodes sit in a vector; a node's child table maps
//! a segment to the index of the child.

use crate::maps::{child_entries, get_child, insert_child, new_child_table, ChildTable};
use crate::request::Request;
use vstd::utf8::encode_utf8;
use vstd::prelude::*;
use vstd::string::StringSliceAdditionalSpecFns;

verus! {

/// Splitting of `p[start..]` at `/`, `p[start..i]` being the piece read so
/// far; empty pieces are dropped.
pub open spec fn segments_from(p: Seq<u8>, start: int, i: int) -> Seq<Seq<u8>>
    decreases p.len() - i,
{
    if i >= p.len() || i < start || start < 0 {
        if start < i <= p.len() && start >= 0 {
            seq![p.subrange(start, i)]
        } else {
            seq![]
        }
    } else if p[i] == 47 {
        (if i > start {
            seq![p.subrange(start, i)]
        } else {
            seq![]
        }) + segments_from(p, i + 1, i + 1)
    } else {
        segments_from(p, start, i + 1)
    }
}

/// The non-empty `/`-separated segments of the path `p`, in order.
pub open spec fn path_segments(p: Seq<u8>) -> Seq<Seq<u8>> {
    segments_from(p, 0, 0)
}

/// Index of the first `?` of the request target `t` at or after `i`, or its length.
pub open spec fn path_end(t: Seq<u8>, i: int) -> int
    decreases t.len() - i,
{
    if i < 0 || i >= t.len() {
        t.len() as int
    } else if t[i] == 63 {
        i
    } else {
        path_end(t, i + 1)
    }
}

/// The path of the request target `t`: the bytes before the query (`?`).
pub open spec fn target_path(t: Seq<u8>) -> Seq<u8> {
    t.take(path_end(t, 0))
}

/// The route that a request with target `uri` asks for.
pub open spec fn request_route(uri: Seq<char>) -> Seq<Seq<u8>> {
    path_segments(target_path(encode_utf8(uri)))
}

/// The path part of the request target `t`.
pub fn uri_path(t: &[u8]) -> (p: &[u8])
    ensures
        p@ == target_path(t@),
{
    let mut i: usize = 0;
    while i < t.len() && t[i] != 63
        invariant
            i <= t@.len(),
            path_end(t@, i as int) == path_end(t@, 0),
        decreases t.len() - i,
    {
        i = i + 1;
    }
    assert(path_end(t@, i as int) == i);
    vstd::slice::slice_subrange(t, 0, i)
}

/// Splits the path `p` into its non-empty `/`-separated segments.
pub fn split_segments(p: &[u8]) -> (segs: Vec<Vec<u8>>)
    ensures
        segs.deep_view() == path_segments(p@),
{
    let len = p.len();
    let mut segs: Vec<Vec<u8>> = Vec::new();
    let mut cur: Vec<u8> = Vec::new();
    let mut i: usize = 0;
    let ghost mut start: int = 0;
    while i < len
        invariant
            len == p@.len(),
            0 <= start <= i <= len,
            cur@ == p@.subrange(start, i as int),
            segs.deep_view() + segments_from(p@, start, i as int) == path_segments(p@),
        decreases len - i,
    {
        let b = p[i];
        if b == 47 {
            proof {
                assert(segments_from(p@, start, i as int) == (if i > start {
                    seq![p@.subrange(start, i as int)]
                } else {
                    seq![]
                }) + segments_from(p@, i + 1, i + 1));
            }
            if cur.len() > 0 {
                let ghost before = segs.deep_view();
                let piece = cur;
                assert(piece.deep_view() =~= piece@);
                segs.push(piece);
                assert(segs.deep_view() =~= before + seq![p@.subrange(start, i as int)]);
                assert(before + seq![p@.subrange(start, i as int)] + segments_from(
                    p@,
                    i + 1,
                    i + 1,
                ) =~= before + (seq![p@.subrange(start, i as int)] + segments_from(
                    p@,
                    i + 1,
                    i + 1,
                )));
            } else {
                assert(seq![] + segments_from(p@, i + 1, i + 1) =~= segments_from(
                    p@,
                    i + 1,
                    i + 1,
                ));
            }
            cur = Vec::new();
            i = i + 1;
            proof {
                start = i as int;
            }
        } else {
            cur.push(b);
            i = i + 1;
            assert(cur@ =~= p@.subrange(start, i as int));
        }
    }
    if cur.len() > 0 {
        let ghost before = segs.deep_view();
        assert(cur.deep_view() =~= cur@);
        segs.push(cur);
        assert(segs.deep_view() =~= before + seq![p@.subrange(start, len as int)]);
    } else {
        assert(segs.deep_view() + seq![] =~= segs.deep_view());
    }
    segs
}

/// A node of the route tree: an optional handler and the child table.
pub struct Node<H> {
    method: Option<H>,
    children: ChildTable,
}

impl<H> Node<H> {
    /// The handler of this node.
    pub closed spec fn handler(self) -> Option<H> {
        self.method
    }

    /// Segment to child index.
    pub closed spec fn child_map(self) -> Map<Seq<u8>, usize> {
        child_entries(self.children)
    }

    pub fn new() -> (n: Node<H>)
        ensures
            n.handler() is None,
            n.child_map() == Map::<Seq<u8>, usize>::empty(),
    {
        Node { method: None, children: new_child_table() }
    }

    pub fn set_method(&mut self, func: H)
        ensures
            final(self).handler() == Some(func),
            final(self).child_map() == old(self).child_map(),
    {
        self.method = Some(func);
    }

    /// The child index along segment `seg`; when there is none yet, `seg` is
    /// entered with the index `fresh`, which is returned.
    pub fn add_child(&mut self, seg: &[u8], fresh: usize) -> (c: usize)
        ensures
            old(self).child_map().dom().contains(seg@) ==> c == old(self).child_map()[seg@]
                && *final(self) == *old(self),
            !old(self).child_map().dom().contains(seg@) ==> c == fresh && final(self).child_map()
                == old(self).child_map().insert(seg@, fresh) && final(self).handler() == old(
                self,
            ).handler(),
    {
        match get_child(&self.children, seg) {
            Some(c) => c,
            None => {
                let key = vstd::slice::slice_to_vec(seg);
                insert_child(&mut self.children, key, fresh);
                fresh
            },
        }
    }
}

/// The node reached from the root (index 0) by following the segments of `q`.
pub open spec fn lookup<H>(nodes: Seq<Node<H>>, q: Seq<Seq<u8>>) -> Option<int>
    decreases q.len(),
{
    if q.len() == 0 {
        Some(0)
    } else {
        match lookup(nodes, q.drop_last()) {
            Some(k) => if 0 <= k < nodes.len() && nodes[k].child_map().dom().contains(q.last()) {
                Some(nodes[k].child_map()[q.last()] as int)
            } else {
                None
            },
            None => None,
        }
    }
}

pub struct Router<H> {
    routes: Vec<Node<H>>,
    /// The segments that lead from the root to each node.
    paths: Ghost<Seq<Seq<Seq<u8>>>>,
}

impl<H> Router<H> {
    /// The node vector.
    pub closed spec fn nodes(self) -> Seq<Node<H>> {
        self.routes@
    }

    /// The segments that lead from the root to node `k`.
    pub closed spec fn path_of(self, k: int) -> Seq<Seq<u8>> {
        self.paths@[k]
    }

    /// The tree is well formed: every child index is a node, each node is
    /// reached exactly along the segments recorded for it.
    pub closed spec fn wf(self) -> bool {
        let nodes = self.routes@;
        let paths = self.paths@;
        &&& nodes.len() >= 1
        &&& paths.len() == nodes.len()
        &&& paths[0] == Seq::<Seq<u8>>::empty()
        &&& forall|k: int, s: Seq<u8>|
            0 <= k < nodes.len() && #[trigger] nodes[k].child_map().dom().contains(s) ==> {
                let c = nodes[k].child_map()[s] as int;
                &&& c < nodes.len()
                &&& paths[c] == paths[k].push(s)
            }
        &&& forall|k: int| 0 <= k < nodes.len() ==> lookup(nodes, #[trigger] paths[k]) == Some(k)
    }

    /// The routes: for each segment list that leads to a node with a handler,
    /// that handler.
    pub closed spec fn route_map(self) -> Map<Seq<Seq<u8>>, H> {
        Map::new(
            |q: Seq<Seq<u8>>|
                lookup(self.routes@, q) matches Some(k) && 0 <= k < self.routes@.len()
                    && self.routes@[k].handler() is Some,
            |q: Seq<Seq<u8>>| self.routes@[lookup(self.routes@, q)->0].handler()->0,
        )
    }

    /// Following segments from the root ends at the node recorded for them.
    proof fn lemma_lookup_path(self, q: Seq<Seq<u8>>)
        requires
            self.wf(),
            lookup(self.routes@, q) is Some,
        ensures
            ({
                let k = lookup(self.routes@, q)->0;
                &&& 0 <= k < self.routes@.len()
                &&& self.paths@[k] == q
            }),
        decreases q.len(),
    {
        if q.len() > 0 {
            self.lemma_lookup_path(q.drop_last());
            let p = lookup(self.routes@, q.drop_last())->0;
            assert(self.routes@[p].child_map().dom().contains(q.last()));
            assert(q.drop_last().push(q.last()) =~= q);
        }
    }

    pub fn new() -> (r: Router<H>)
        ensures
            r.wf(),
            r.route_map() == Map::<Seq<Seq<u8>>, H>::empty(),
    {
        let mut routes: Vec<Node<H>> = Vec::new();
        routes.push(Node::new());
        let ghost root_path: Seq<Seq<Seq<u8>>> = seq![Seq::<Seq<u8>>::empty()];
        let r = Router { routes, paths: Ghost(root_path) };
        assert(lookup(r.routes@, Seq::<Seq<u8>>::empty()) == Some(0int));
        assert(r.route_map() =~= Map::<Seq<Seq<u8>>, H>::empty());
        r
    }

    /// The child of node `node` along segment `seg`, made (without a handler)
    /// when there is none yet.
    fn child_node(&mut self, node: usize, seg: &[u8]) -> (c: usize)
        requires
            old(self).wf(),
            node < old(self).nodes().len(),
        ensures
            final(self).wf(),
            c < final(self).nodes().len(),
            final(self).path_of(c as int) == old(self).path_of(node as int).push(seg@),
            final(self).route_map() == old(self).route_map(),
            old(self).nodes().len() <= final(self).nodes().len(),
            forall|k: int|
                0 <= k < old(self).nodes().len() ==> #[trigger] final(self).path_of(k)
                    == old(self).path_of(k),
    {
        let ghost old_nodes = self.routes@;
        let ghost old_paths = self.paths@;
        let n = self.routes.len();
        let c = self.routes[node].add_child(seg, n);
        if c < n {
            assert(self.routes@ =~= old_nodes);
            c
        } else {
            self.routes.push(Node::new());
            let ghost new_path = old_paths[node as int].push(seg@);
            self.paths = Ghost(old_paths.push(new_path));
            proof {
                let nodes2 = self.routes@;
                let paths2 = self.paths@;
                assert forall|j: int, s: Seq<u8>|
                    0 <= j < old_nodes.len() && #[trigger] old_nodes[j].child_map().dom().contains(
                        s,
                    ) implies {
                    &&& nodes2[j].child_map().dom().contains(s)
                    &&& nodes2[j].child_map()[s] == old_nodes[j].child_map()[s]
                } by {
                    if j == node {
                        assert(s != seg@);
                    }
                }
                assert forall|k: int, s: Seq<u8>|
                    0 <= k < nodes2.len() && #[trigger] nodes2[k].child_map().dom().contains(
                        s,
                    ) implies {
                    let c = nodes2[k].child_map()[s] as int;
                    &&& c < nodes2.len()
                    &&& paths2[c] == paths2[k].push(s)
                } by {
                    if k == node && s == seg@ {
                    } else {
                        assert(old_nodes[k].child_map().dom().contains(s));
                    }
                }
                assert forall|k: int| 0 <= k < nodes2.len() implies lookup(
                    nodes2,
                    #[trigger] paths2[k],
                ) == Some(k) by {
                    if k < n {
                        lemma_lookup_grows(old_nodes, nodes2, old_paths[k]);
                    } else {
                        lemma_lookup_grows(old_nodes, nodes2, old_paths[node as int]);
                        assert(new_path.drop_last() =~= old_paths[node as int]);
                    }
                }
                assert(self.wf());
                assert forall|q: Seq<Seq<u8>>|
                    #[trigger] lookup(nodes2, q) is Some && lookup(nodes2, q)->0 != n implies lookup(
                        nodes2,
                        q,
                    ) == lookup(old_nodes, q) by {
                    self.lemma_lookup_path(q);
                    let k = lookup(nodes2, q)->0;
                    assert(old_paths[k] == q);
                    assert(lookup(old_nodes, old_paths[k]) == Some(k));
                }
                assert forall|q: Seq<Seq<u8>>| #[trigger]
                    lookup(old_nodes, q) is Some implies lookup(nodes2, q) == lookup(
                        old_nodes,
                        q,
                    ) by {
                    lemma_lookup_grows(old_nodes, nodes2, q);
                }
                assert(forall|k: int|
                    0 <= k < n ==> #[trigger] nodes2[k].handler() == old_nodes[k].handler());
                assert(self.route_map() =~= old(self).route_map());
            }
            n
        }
    }

    /// Registers `func` as the handler of the path `path` (the request
    /// method is not looked at).
    pub fn add(&mut self, method: &str, path: &'static str, func: H)
        requires
            old(self).wf(),
        ensures
            final(self).wf(),
            final(self).route_map() == old(self).route_map().insert(
                path_segments(path.spec_bytes()),
                func,
            ),
    {
        let segs = split_segments(path.as_bytes());
        let ghost q = path_segments(path.spec_bytes());
        let mut node: usize = 0;
        let mut i: usize = 0;
        while i < segs.len()
            invariant
                self.wf(),
                segs.deep_view() == q,
                i <= segs.len(),
                node < self.nodes().len(),
                self.path_of(node as int) == q.take(i as int),
                self.route_map() == old(self).route_map(),
            decreases segs.len() - i,
        {
            assert(segs@[i as int].deep_view() =~= segs@[i as int]@);
            node = self.child_node(node, segs[i].as_slice());
            assert(q.take(i as int).push(segs@[i as int]@) =~= q.take(i + 1));
            i = i + 1;
        }
        let ghost old_nodes = self.routes@;
        self.routes[node].set_method(func);
        proof {
            let nodes2 = self.routes@;
            assert(q.take(i as int) =~= q);
            assert forall|q2: Seq<Seq<u8>>| #[trigger]
                lookup(nodes2, q2) == lookup(old_nodes, q2) by {
                lemma_lookup_same_children(old_nodes, nodes2, q2);
            }
            assert forall|k: int| 0 <= k < nodes2.len() implies lookup(
                nodes2,
                #[trigger] self.paths@[k],
            ) == Some(k) by {
                assert(lookup(old_nodes, self.paths@[k]) == Some(k));
            }
            assert(self.wf());
            assert forall|q2: Seq<Seq<u8>>| #[trigger]
                lookup(nodes2, q2) is Some implies (lookup(nodes2, q2)->0 == node <==> q2 == q) by {
                self.lemma_lookup_path(q2);
            }
            assert(lookup(nodes2, q) == Some(node as int));
            assert(self.route_map() =~= old(self).route_map().insert(q, func));
        }
    }

    /// The handler registered for the path of the request's target, if any.
    pub fn find<F>(&self, req: &Request<F>) -> (h: Option<&H>)
        requires
            self.wf(),
        ensures
            match h {
                Some(x) => self.route_map().dom().contains(request_route(req@.uri))
                    && *x == self.route_map()[request_route(req@.uri)],
                None => !self.route_map().dom().contains(request_route(req@.uri)),
            },
    {
        let target = req.target().as_bytes();
        let path = uri_path(target);
        let segs = split_segments(path);
        let ghost q = request_route(req@.uri);
        let mut node: usize = 0;
        let mut i: usize = 0;
        while i < segs.len()
            invariant
                self.wf(),
                segs.deep_view() == q,
                i <= segs.len(),
                node < self.nodes().len(),
                lookup(self.routes@, q.take(i as int)) == Some(node as int),
                q == request_route(req@.uri),
            decreases segs.len() - i,
        {
            assert(q.take(i + 1).drop_last() =~= q.take(i as int));
            assert(segs@[i as int].deep_view() =~= segs@[i as int]@);
            assert(q.take(i + 1).last() == segs@[i as int]@);
            match get_child(&self.routes[node].children, segs[i].as_slice()) {
                Some(c) => {
                    assert(self.routes@[node as int].child_map().dom().contains(segs@[i as int]@));
                    node = c;
                },
                None => {
                    proof {
                        assert(lookup(self.routes@, q.take(i + 1)) is None);
                        lemma_lookup_prefix_fails(self.routes@, q, i + 1);
                    }
                    return None;
                },
            }
            i = i + 1;
        }
        assert(q.take(i as int) =~= q);
        match &self.routes[node].method {
            Some(x) => Some(x),
            None => None,
        }
    }
}

/// Lookups that succeed keep their result when nodes gain children and new
/// nodes are appended.
proof fn lemma_lookup_grows<H>(nodes: Seq<Node<H>>, nodes2: Seq<Node<H>>, q: Seq<Seq<u8>>)
    requires
        nodes.len() <= nodes2.len(),
        forall|j: int, s: Seq<u8>|
            0 <= j < nodes.len() && #[trigger] nodes[j].child_map().dom().contains(s) ==> {
                &&& nodes2[j].child_map().dom().contains(s)
                &&& nodes2[j].child_map()[s] == nodes[j].child_map()[s]
            },
        lookup(nodes, q) is Some,
    ensures
        lookup(nodes2, q) == lookup(nodes, q),
    decreases q.len(),
{
    if q.len() > 0 {
        lemma_lookup_grows(nodes, nodes2, q.drop_last());
    }
}

/// Lookups depend on the child tables only.
proof fn lemma_lookup_same_children<H>(nodes: Seq<Node<H>>, nodes2: Seq<Node<H>>, q: Seq<Seq<u8>>)
    requires
        nodes.len() == nodes2.len(),
        forall|j: int| 0 <= j < nodes.len() ==> #[trigger] nodes2[j].child_map() == nodes[j].child_map(),
    ensures
        lookup(nodes2, q) == lookup(nodes, q),
    decreases q.len(),
{
    if q.len() > 0 {
        lemma_lookup_same_children(nodes, nodes2, q.drop_last());
    }
}

/// A lookup that fails on a prefix fails on the whole.
proof fn lemma_lookup_prefix_fails<H>(nodes: Seq<Node<H>>, q: Seq<Seq<u8>>, j: int)
    requires
        0 <= j <= q.len(),
        lookup(nodes, q.take(j)) is None,
    ensures
        lookup(nodes, q) is None,
    decreases q.len() - j,
{
    if j < q.len() {
        assert(q.take(j + 1).drop_last() =~= q.take(j));
        lemma_lookup_prefix_fails(nodes, q, j + 1);
    } else {
        assert(q.take(j) =~= q);
    }
}

/// What `add` registers for a path is what `find` gives back for every
/// request whose target has that path (whatever the empty segments and the
/// query), and registering one path leaves the route of every other path as
/// it was.
pub proof fn lemma_add_then_find<H>(before: Router<H>, after: Router<H>, path: Seq<u8>, h: H, uri: Seq<char>)
    requires
        after.route_map() == before.route_map().insert(path_segments(path), h),
    ensures
        request_route(uri) == path_segments(path) ==> after.route_map().dom().contains(
            request_route(uri),
        ) && after.route_map()[request_route(uri)] == h,
        request_route(uri) != path_segments(path) ==> (after.route_map().dom().contains(
            request_route(uri),
        ) <==> before.route_map().dom().contains(request_route(uri))),
        request_route(uri) != path_segments(path) && before.route_map().dom().contains(
            request_route(uri),
        ) ==> after.route_map()[request_route(uri)] == before.route_map()[request_route(uri)],
{
}

/// The routes of `m` after the paths of `adds` are registered one after
/// another with their handlers.
pub open spec fn registered<H>(m: Map<Seq<Seq<u8>>, H>, adds: Seq<(Seq<u8>, H)>) -> Map<Seq<Seq<u8>>, H>
    decreases adds.len(),
{
    if adds.len() == 0 {
        m
    } else {
        registered(m, adds.drop_last()).insert(path_segments(adds.last().0), adds.last().1)
    }
}

/// Registering onto no routes: the segments `q` have a route exactly when
/// some registered path has them, and the route is the handler registered
/// last for them.
#[verifier::spinoff_prover]
#[verifier::rlimit(30)]
proof fn lemma_registered<H>(adds: Seq<(Seq<u8>, H)>, q: Seq<Seq<u8>>)
    ensures
        registered(Map::empty(), adds).dom().contains(q) <==> exists|j: int|
            0 <= j < adds.len() && path_segments(#[trigger] adds[j].0) == q,
        forall|j: int|
            0 <= j < adds.len() && path_segments(#[trigger] adds[j].0) == q && (forall|k: int|
                j < k < adds.len() ==> path_segments(#[trigger] adds[k].0) != q)
                ==> registered(Map::empty(), adds)[q] == adds[j].1,
    decreases adds.len(),
{
    let n = adds.len();
    if n > 0 {
        let adds2 = adds.drop_last();
        lemma_registered(adds2, q);
        let before = registered(Map::<Seq<Seq<u8>>, H>::empty(), adds2);
        let after = registered(Map::<Seq<Seq<u8>>, H>::empty(), adds);
        assert(after == before.insert(path_segments(adds[n - 1].0), adds[n - 1].1));
        if path_segments(adds[n - 1].0) == q {
            assert forall|j: int|
                0 <= j < adds.len() && path_segments(#[trigger] adds[j].0) == q && (forall|k: int|
                    j < k < adds.len() ==> path_segments(#[trigger] adds[k].0) != q) implies after[q]
                == adds[j].1 by {
                if j < n - 1 {
                    assert(path_segments(adds[n - 1].0) != q);
                }
            }
        } else {
            if before.dom().contains(q) {
                let j = choose|j: int| 0 <= j < adds2.len() && path_segments(#[trigger] adds2[j].0) == q;
                assert(adds[j] == adds2[j]);
            }
            if exists|j: int| 0 <= j < adds.len() && path_segments(#[trigger] adds[j].0) == q {
                let j = choose|j: int| 0 <= j < adds.len() && path_segments(#[trigger] adds[j].0) == q;
                assert(adds2[j] == adds[j]);
            }
            assert forall|j: int|
                0 <= j < adds.len() && path_segments(#[trigger] adds[j].0) == q && (forall|k: int|
                    j < k < adds.len() ==> path_segments(#[trigger] adds[k].0) != q) implies after[q]
                == adds[j].1 by {
                assert(adds2[j] == adds[j]);
                assert forall|k: int| j < k < adds2.len() implies path_segments(#[trigger] adds2[k].0)
                    != q by {
                    assert(adds2[k] == adds[k]);
                }
            }
        }
    }
}

/// The routes after a chain of registrations, each router being the one
/// before with one more path registered.
proof fn lemma_chain_registered<H>(maps: Seq<Map<Seq<Seq<u8>>, H>>, adds: Seq<(Seq<u8>, H)>)
    requires
        maps.len() == adds.len() + 1,
        maps[0] == Map::<Seq<Seq<u8>>, H>::empty(),
        forall|i: int|
            0 <= i < adds.len() ==> #[trigger] maps[i + 1] == maps[i].insert(
                path_segments(adds[i].0),
                adds[i].1,
            ),
    ensures
        maps.last() == registered(Map::empty(), adds),
    decreases adds.len(),
{
    let n = adds.len();
    if n > 0 {
        let maps2 = maps.drop_last();
        let adds2 = adds.drop_last();
        assert forall|i: int| 0 <= i < adds2.len() implies #[trigger] maps2[i + 1] == maps2[i].insert(
            path_segments(adds2[i].0),
            adds2[i].1,
        ) by {
            assert(maps[i + 1] == maps[i].insert(path_segments(adds[i].0), adds[i].1));
        }
        lemma_chain_registered(maps2, adds2);
        assert(maps[n as int] == maps[n - 1].insert(path_segments(adds[n - 1].0), adds[n - 1].1));
    }
}

/// After a router is made and the paths of `adds` are registered one after
/// another with their handlers (`routers[i]` being the router after the first
/// `i` registrations), a request whose target path has the segments of some
/// registered path finds the handler registered last for those segments, and
/// any other request finds nothing.
pub proof fn lemma_registrations_then_find<H>(routers: Seq<Router<H>>, adds: Seq<(Seq<u8>, H)>, uri: Seq<char>)
    requires
        routers.len() == adds.len() + 1,
        routers[0].route_map() == Map::<Seq<Seq<u8>>, H>::empty(),
        forall|i: int|
            0 <= i < adds.len() ==> #[trigger] routers[i + 1].route_map() == routers[i].route_map().insert(
                path_segments(adds[i].0),
                adds[i].1,
            ),
    ensures
        routers.last().route_map().dom().contains(request_route(uri)) <==> exists|j: int|
            0 <= j < adds.len() && path_segments(#[trigger] adds[j].0) == request_route(uri),
        forall|j: int|
            0 <= j < adds.len() && path_segments(#[trigger] adds[j].0) == request_route(uri) && (
            forall|k: int| j < k < adds.len() ==> path_segments(#[trigger] adds[k].0) != request_route(uri))
                ==> routers.last().route_map()[request_route(uri)] == adds[j].1,
{
    let maps = Seq::new(routers.len(), |i: int| routers[i].route_map());
    assert forall|i: int| 0 <= i < adds.len() implies #[trigger] maps[i + 1] == maps[i].insert(
        path_segments(adds[i].0),
        adds[i].1,
    ) by {
        assert(routers[i + 1].route_map() == routers[i].route_map().insert(
            path_segments(adds[i].0),
            adds[i].1,
        ));
    }
    lemma_chain_registered(maps, adds);
    lemma_registered(adds, request_route(uri));
    assert(maps.last() == routers.last().route_map());
}

proof fn lemma_path_end(t: Seq<u8>, i: int)
    requires
        0 <= i <= t.len(),
    ensures
        (forall|j: int| i <= j < t.len() ==> t[j] != 63) ==> path_end(t, i) == t.len(),
        forall|q: int|
            i <= q < t.len() && t[q] == 63 && (forall|j: int| i <= j < q ==> t[j] != 63) ==> path_end(
                t,
                i,
            ) == q,
    decreases t.len() - i,
{
    if i < t.len() {
        lemma_path_end(t, i + 1);
    }
}

/// The path of a request target is the target up to its first `?`, and the
/// whole target when it has no `?`.
pub proof fn lemma_target_path(t: Seq<u8>)
    ensures
        (forall|j: int| 0 <= j < t.len() ==> t[j] != 63) ==> target_path(t) == t,
        forall|q: int|
            0 <= q < t.len() && t[q] == 63 && (forall|j: int| 0 <= j < q ==> t[j] != 63)
                ==> target_path(t) == t.take(q),
{
    lemma_path_end(t, 0);
    assert(t.take(t.len() as int) =~= t);
}

/// A request whose target has no `?` is routed by the segments of its whole
/// target: it finds what was registered for a path equal to its target.
pub proof fn lemma_route_of_plain_target(uri: Seq<char>)
    requires
        forall|j: int| 0 <= j < encode_utf8(uri).len() ==> encode_utf8(uri)[j] != 63,
    ensures
        request_route(uri) == path_segments(encode_utf8(uri)),
{
    lemma_target_path(encode_utf8(uri));
}

proof fn lemma_segments_no_slash(p: Seq<u8>, start: int, i: int)
    requires
        0 <= start <= i <= p.len(),
        forall|j: int| start <= j < p.len() ==> p[j] != 47,
    ensures
        segments_from(p, start, i) == (if start < p.len() {
            seq![p.subrange(start, p.len() as int)]
        } else {
            Seq::<Seq<u8>>::empty()
        }),
    decreases p.len() - i,
{
    if i < p.len() {
        lemma_segments_no_slash(p, start, i + 1);
    }
}

/// A path without `/` is one segment, or none when it is empty.
pub proof fn lemma_segments_of_piece(p: Seq<u8>)
    requires
        forall|j: int| 0 <= j < p.len() ==> p[j] != 47,
    ensures
        p.len() > 0 ==> path_segments(p) == seq![p],
        p.len() == 0 ==> path_segments(p) == Seq::<Seq<u8>>::empty(),
{
    lemma_segments_no_slash(p, 0, 0);
    assert(p.subrange(0, p.len() as int) =~= p);
}

proof fn lemma_segments_shift(x: Seq<u8>, b: Seq<u8>, s: int, j: int)
    requires
        0 <= s <= j <= b.len(),
    ensures
        segments_from(x + b, x.len() + s, x.len() + j) == segments_from(b, s, j),
    decreases b.len() - j,
{
    let q = x + b;
    let n = x.len() as int;
    if j < b.len() {
        assert(q[n + j] == b[j]);
        if b[j] == 47 {
            lemma_segments_shift(x, b, j + 1, j + 1);
            if j > s {
                assert(q.subrange(n + s, n + j) =~= b.subrange(s, j));
            }
        } else {
            lemma_segments_shift(x, b, s, j + 1);
        }
    } else if s < j {
        assert(q.subrange(n + s, n + j) =~= b.subrange(s, j));
    }
}

proof fn lemma_segments_join(a: Seq<u8>, b: Seq<u8>, start: int, i: int)
    requires
        0 <= start <= i <= a.len(),
    ensures
        segments_from(a + seq![47u8] + b, start, i) == segments_from(a, start, i) + path_segments(b),
    decreases a.len() - i,
{
    let q = a + seq![47u8] + b;
    let n = a.len() as int;
    if i < n {
        assert(q[i] == a[i]);
        if a[i] == 47 {
            lemma_segments_join(a, b, i + 1, i + 1);
            if i > start {
                assert(q.subrange(start, i) =~= a.subrange(start, i));
            }
            let piece = if i > start {
                seq![a.subrange(start, i)]
            } else {
                Seq::<Seq<u8>>::empty()
            };
            assert(piece + (segments_from(a, i + 1, i + 1) + path_segments(b)) =~= (piece
                + segments_from(a, i + 1, i + 1)) + path_segments(b));
        } else {
            lemma_segments_join(a, b, start, i + 1);
        }
    } else {
        assert(q[n] == 47u8);
        assert(q =~= (a + seq![47u8]) + b);
        lemma_segments_shift(a + seq![47u8], b, 0, 0);
        if n > start {
            assert(q.subrange(start, n) =~= a.subrange(start, n));
        }
    }
}

/// Splitting a path at `/`: the segments of `a / b` are those of `a` followed
/// by those of `b`.
pub proof fn lemma_segments_of_join(a: Seq<u8>, b: Seq<u8>)
    ensures
        path_segments(a + seq![47u8] + b) == path_segments(a) + path_segments(b),
{
    lemma_segments_join(a, b, 0, 0);
}

} // verus!
