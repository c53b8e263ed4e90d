//! Leaves: the terminal per-path record holding the parameter schema, the
//! static-mount metadata, and the handler-kind to handler-reference mapping.

use vstd::prelude::*;
use vstd::string::*;
use crate::errors::ConfigError;
use crate::handler::{HandlerType, KindV, method_kind};
use crate::paths::{seq_views, str_eq};

verus! {

/// Terminal data for one routable path.
#[derive(Debug)]
pub struct Leaf {
    /// True when the path bypasses per-method dispatch: raw-protocol routes
    /// and every path under a static mount.
    pub is_asgi: bool,
    /// The mount prefix, set only on the leaf at a static mount's root.
    pub static_path: Option<String>,
    /// The declared parameter names of the routes at this path, in order.
    pub path_parameters: Vec<String>,
    /// Handler references keyed by handler kind; kinds are unique.
    pub asgi_handlers: Vec<(HandlerType, u64)>,
}

/// Ghost form of a leaf.
pub struct LeafV {
    pub is_asgi: bool,
    pub static_path: Option<Seq<char>>,
    pub path_parameters: Seq<Seq<char>>,
    pub handlers: Seq<(KindV, u64)>,
}

/// The views of a handler association list.
pub open spec fn handler_views(hs: Seq<(HandlerType, u64)>) -> Seq<(KindV, u64)> {
    Seq::new(hs.len(), |i: int| (hs[i].0@, hs[i].1))
}

impl View for Leaf {
    type V = LeafV;

    open spec fn view(&self) -> LeafV {
        LeafV {
            is_asgi: self.is_asgi,
            static_path: match self.static_path {
                Some(p) => Some(p@),
                None => None,
            },
            path_parameters: seq_views(self.path_parameters@),
            handlers: handler_views(self.asgi_handlers@),
        }
    }
}

/// A fresh leaf: no handlers, no static mount, the given schema.
pub open spec fn new_leaf(schema: Seq<Seq<char>>) -> LeafV {
    LeafV { is_asgi: false, static_path: None, path_parameters: schema, handlers: Seq::empty() }
}

/// The handler stored under kind `k`: the first entry with that kind.
pub open spec fn handler_lookup(hs: Seq<(KindV, u64)>, k: KindV) -> Option<u64>
    decreases hs.len(),
{
    if hs.len() == 0 {
        None
    } else if hs[0].0 == k {
        Some(hs[0].1)
    } else {
        handler_lookup(hs.drop_first(), k)
    }
}

/// Inserting under kind `k`: the first entry with that kind is replaced, or
/// a new entry is appended.
pub open spec fn handler_upsert(hs: Seq<(KindV, u64)>, k: KindV, h: u64) -> Seq<(KindV, u64)>
    decreases hs.len(),
{
    if hs.len() == 0 {
        seq![(k, h)]
    } else if hs[0].0 == k {
        seq![(k, h)] + hs.drop_first()
    } else {
        seq![hs[0]] + handler_upsert(hs.drop_first(), k, h)
    }
}

proof fn lemma_upsert_at(hs: Seq<(KindV, u64)>, k: KindV, h: u64, i: int)
    requires
        0 <= i < hs.len(),
        hs[i].0 == k,
        forall|j: int| 0 <= j < i ==> hs[j].0 != k,
    ensures
        handler_upsert(hs, k, h) =~= hs.update(i, (k, h)),
    decreases i,
{
    if i == 0 {
        assert(handler_upsert(hs, k, h) =~= hs.update(0, (k, h)));
    } else {
        lemma_upsert_at(hs.drop_first(), k, h, i - 1);
        assert(hs.drop_first().update(i - 1, (k, h)) =~= hs.update(i, (k, h)).drop_first());
        assert(handler_upsert(hs, k, h) =~= hs.update(i, (k, h)));
    }
}

proof fn lemma_upsert_absent(hs: Seq<(KindV, u64)>, k: KindV, h: u64)
    requires
        forall|j: int| 0 <= j < hs.len() ==> hs[j].0 != k,
    ensures
        handler_upsert(hs, k, h) =~= hs.push((k, h)),
    decreases hs.len(),
{
    if hs.len() > 0 {
        lemma_upsert_absent(hs.drop_first(), k, h);
        assert(handler_upsert(hs, k, h) =~= hs.push((k, h)));
    }
}

impl Leaf {
    /// A fresh leaf carrying the given parameter schema.
    pub fn new(schema: Vec<String>) -> (r: Leaf)
        ensures
            r@ == new_leaf(seq_views(schema@)),
    {
        let r = Leaf {
            is_asgi: false,
            static_path: None,
            path_parameters: schema,
            asgi_handlers: Vec::new(),
        };
        proof {
            assert(r@.handlers =~= Seq::<(KindV, u64)>::empty());
        }
        r
    }

    /// The handler registered under `kind`, as `handler_lookup` states.
    pub fn get_handler(&self, kind: &HandlerType) -> (r: Option<u64>)
        ensures
            r == handler_lookup(self@.handlers, kind@),
    {
        let ghost hs = self@.handlers;
        proof {
            assert(hs.skip(0) =~= hs);
        }
        let mut i: usize = 0;
        while i < self.asgi_handlers.len()
            invariant
                i <= hs.len(),
                hs == handler_views(self.asgi_handlers@),
                hs.len() == self.asgi_handlers@.len(),
                handler_lookup(hs, kind@) == handler_lookup(hs.skip(i as int), kind@),
            decreases hs.len() - i,
        {
            if self.asgi_handlers[i].0.kind_equals(kind) {
                proof {
                    assert(hs.skip(i as int)[0] == hs[i as int]);
                }
                return Some(self.asgi_handlers[i].1);
            }
            proof {
                assert(hs.skip(i as int)[0] == hs[i as int]);
                assert(hs.skip(i as int).drop_first() =~= hs.skip(i as int + 1));
            }
            i += 1;
        }
        proof {
            assert(hs.skip(i as int) =~= Seq::<(KindV, u64)>::empty());
        }
        None
    }

    /// Registers `handler` under `kind`, as `handler_upsert` states; the
    /// other fields are untouched.
    pub fn insert_handler(&mut self, kind: HandlerType, handler: u64)
        ensures
            final(self)@ == (LeafV {
                handlers: handler_upsert(old(self)@.handlers, kind@, handler),
                ..old(self)@
            }),
    {
        let ghost hs = self@.handlers;
        let mut i: usize = 0;
        while i < self.asgi_handlers.len()
            invariant
                i <= hs.len(),
                *self == *old(self),
                hs == handler_views(self.asgi_handlers@),
                hs.len() == self.asgi_handlers@.len(),
                forall|j: int| 0 <= j < i ==> hs[j].0 != kind@,
            decreases hs.len() - i,
        {
            if self.asgi_handlers[i].0.kind_equals(&kind) {
                self.asgi_handlers.remove(i);
                self.asgi_handlers.insert(i, (kind, handler));
                proof {
                    lemma_upsert_at(hs, kind@, handler, i as int);
                    assert(self.asgi_handlers@ =~= old(self).asgi_handlers@.update(
                        i as int,
                        (kind, handler),
                    ));
                    assert(handler_views(self.asgi_handlers@) =~= hs.update(
                        i as int,
                        (kind@, handler),
                    ));
                }
                return ;
            }
            i += 1;
        }
        proof {
            lemma_upsert_absent(hs, kind@, handler);
        }
        self.asgi_handlers.push((kind, handler));
        proof {
            assert(handler_views(self.asgi_handlers@) =~= hs.push((kind@, handler)));
        }
    }

    /// Whether this leaf's parameter schema equals `schema`, name for name.
    pub fn schema_matches(&self, schema: &Vec<String>) -> (r: bool)
        ensures
            r == (self@.path_parameters == seq_views(schema@)),
    {
        if self.path_parameters.len() != schema.len() {
            proof {
                assert(seq_views(self.path_parameters@).len() != seq_views(schema@).len());
            }
            return false;
        }
        let mut i: usize = 0;
        while i < self.path_parameters.len()
            invariant
                i <= self.path_parameters@.len(),
                self.path_parameters@.len() == schema@.len(),
                forall|j: int| 0 <= j < i ==> self.path_parameters@[j]@ == schema@[j]@,
            decreases self.path_parameters@.len() - i,
        {
            if !str_eq(self.path_parameters[i].as_str(), schema[i].as_str()) {
                proof {
                    assert(seq_views(self.path_parameters@)[i as int] != seq_views(schema@)[
                        i as int
                    ]);
                }
                return false;
            }
            i += 1;
        }
        proof {
            assert(seq_views(self.path_parameters@) =~= seq_views(schema@));
        }
        true
    }
}

/// A route's protocol-specific shape, in ghost form: the handler references
/// it carries, keyed by HTTP verb where the route is an HTTP route.
pub enum ShapeV {
    Http(Seq<(Seq<char>, u64)>),
    Websocket(u64),
    Asgi(u64),
}

/// All of an HTTP route's method table inserted in order.
pub open spec fn http_applied(hs: Seq<(KindV, u64)>, ms: Seq<(Seq<char>, u64)>) -> Seq<
    (KindV, u64),
>
    decreases ms.len(),
{
    if ms.len() == 0 {
        hs
    } else {
        http_applied(handler_upsert(hs, method_kind(ms[0].0), ms[0].1), ms.drop_first())
    }
}

/// A leaf after the static-mount marking and the handler insertions of one
/// route of the given shape.
pub open spec fn shape_applied(
    base: LeafV,
    in_static: bool,
    path: Seq<char>,
    shape: ShapeV,
) -> LeafV {
    let marked = if in_static {
        LeafV { is_asgi: true, static_path: Some(path), ..base }
    } else {
        base
    };
    match shape {
        ShapeV::Http(ms) => LeafV { handlers: http_applied(marked.handlers, ms), ..marked },
        ShapeV::Websocket(h) => LeafV {
            handlers: handler_upsert(marked.handlers, KindV::Websocket, h),
            ..marked
        },
        ShapeV::Asgi(h) => LeafV {
            is_asgi: true,
            handlers: handler_upsert(marked.handlers, KindV::Asgi, h),
            ..marked
        },
    }
}

/// One route merged into the leaf found (or created) at its path: the schema
/// conflict check, the static-mount marking, and the handler insertions.
/// `Err` is the registration-time schema conflict; nothing is overwritten.
pub open spec fn leaf_applied(
    l0: Option<LeafV>,
    schema: Seq<Seq<char>>,
    in_static: bool,
    path: Seq<char>,
    shape: ShapeV,
) -> Result<LeafV, ConfigError> {
    let base = match l0 {
        Some(l) => l,
        None => new_leaf(schema),
    };
    if base.path_parameters != schema {
        Err(ConfigError::ConflictingPathParameters)
    } else {
        Ok(shape_applied(base, in_static, path, shape))
    }
}

/// A route's protocol-specific shape: an HTTP route carries a table of
/// handler references keyed by verb; a WebSocket or raw-protocol route
/// carries a single handler reference.
#[derive(Debug)]
pub enum RouteShape {
    Http(Vec<(String, u64)>),
    Websocket(u64),
    Asgi(u64),
}

/// The views of an HTTP route's method table.
pub open spec fn methods_views(ms: Seq<(String, u64)>) -> Seq<(Seq<char>, u64)> {
    Seq::new(ms.len(), |i: int| (ms[i].0@, ms[i].1))
}

impl View for RouteShape {
    type V = ShapeV;

    open spec fn view(&self) -> ShapeV {
        match self {
            RouteShape::Http(ms) => ShapeV::Http(methods_views(ms@)),
            RouteShape::Websocket(h) => ShapeV::Websocket(*h),
            RouteShape::Asgi(h) => ShapeV::Asgi(*h),
        }
    }
}

/// Marks and fills `leaf` for one route, as `shape_applied` states.
pub fn apply_shape(leaf: &mut Leaf, in_static: bool, path: &str, shape: &RouteShape)
    ensures
        final(leaf)@ == shape_applied(old(leaf)@, in_static, path@, shape@),
{
    if in_static {
        leaf.is_asgi = true;
        leaf.static_path = Some(String::from_str(path));
    }
    let ghost marked = if in_static {
        LeafV { is_asgi: true, static_path: Some(path@), ..old(leaf)@ }
    } else {
        old(leaf)@
    };
    match shape {
        RouteShape::Http(ms) => {
            let ghost msv = methods_views(ms@);
            proof {
                assert(msv.subrange(0, msv.len() as int) =~= msv);
            }
            let mut i: usize = 0;
            while i < ms.len()
                invariant
                    i <= msv.len(),
                    msv == methods_views(ms@),
                    msv.len() == ms@.len(),
                    leaf@.is_asgi == marked.is_asgi,
                    leaf@.static_path == marked.static_path,
                    leaf@.path_parameters == marked.path_parameters,
                    http_applied(marked.handlers, msv) == http_applied(
                        leaf@.handlers,
                        msv.subrange(i as int, msv.len() as int),
                    ),
                decreases msv.len() - i,
            {
                let ghost before = leaf@.handlers;
                let ghost sub = msv.subrange(i as int, msv.len() as int);
                let kind = HandlerType::from_http_method(ms[i].0.as_str());
                leaf.insert_handler(kind, ms[i].1);
                proof {
                    assert(sub[0] == msv[i as int]);
                    assert(sub.subrange(1, sub.len() as int) =~= msv.subrange(
                        i as int + 1,
                        msv.len() as int,
                    ));
                    assert(http_applied(before, sub) == http_applied(
                        handler_upsert(before, method_kind(msv[i as int].0), msv[i as int].1),
                        sub.subrange(1, sub.len() as int),
                    ));
                }
                i += 1;
            }
            proof {
                assert(msv.subrange(msv.len() as int, msv.len() as int)
                    =~= Seq::<(Seq<char>, u64)>::empty());
            }
        },
        RouteShape::Websocket(h) => {
            leaf.insert_handler(HandlerType::Websocket, *h);
        },
        RouteShape::Asgi(h) => {
            leaf.insert_handler(HandlerType::Asgi, *h);
            leaf.is_asgi = true;
        },
    }
}

} // verus!
