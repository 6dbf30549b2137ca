//! The path router: a trie of route segments with scoped data at each node.
use crate::data::DataContainer;
use crate::http::{method_name, Method};
use crate::lookup::{first_index, lemma_first_index_at, lemma_first_index_push, lemma_first_index_range};
use crate::path::{graphic_ends, is_placeholder, is_root_path, lemma_root_has_no_segment, placeholder, segments_of, split_path, trimmed, views};
use vstd::prelude::*;

verus! {

/// A pipeline registered for one request method.
pub struct MethodRoute<P> {
    pub method: String,
    pub pipeline: P,
}

/// What a path can resolve to.
pub enum PathResolver<P, V> {
    /// A nested router that resolves the rest of the path.
    Router(Box<Router<P, V>>),
    /// A literal payload, served whatever the method.
    Placeholder(String),
    /// One pipeline per request method.
    Pipeline(Vec<MethodRoute<P>>),
}

/// A part of an application that registers its routes on a router of its
/// own, mounted under a path prefix.
pub trait Module<P, V>: Sized {
    /// What the module does to a router: `before` becomes `after`. A module
    /// that says nothing of its routes keeps the default, which claims
    /// nothing.
    open spec fn builds(&self, before: Router<P, V>, after: Router<P, V>) -> bool {
        true
    }

    fn build(self, router: &mut Router<P, V>)
        ensures
            self.builds(*old(router), *final(router)),
    ;
}

/// A literal child of a router node.
pub struct Route<P, V> {
    pub segment: String,
    pub resolver: PathResolver<P, V>,
}

/// What an insertion stores at the end of a path.
pub enum Slot<P, V> {
    /// The resolver itself, replacing whatever stood there.
    Entry(PathResolver<P, V>),
    /// A pipeline for one method, added to the method map that stands there.
    Method(String, P),
}

/// A router node: literal children, a placeholder child, and the data
/// shared by every route beneath it.
pub struct Router<P, V> {
    pub routes: Vec<Route<P, V>>,
    pub fallback: Option<PathResolver<P, V>>,
    pub data: DataContainer<V>,
}

/// The methods of a method map: the first pipeline of each method wins.
pub open spec fn method_keys<P>(ms: Seq<MethodRoute<P>>) -> Seq<Seq<char>> {
    ms.map_values(|m: MethodRoute<P>| m.method@)
}

pub open spec fn methods_of<P>(ms: Seq<MethodRoute<P>>) -> Map<Seq<char>, P> {
    Map::new(
        |k: Seq<char>| first_index(method_keys(ms), k) >= 0,
        |k: Seq<char>| ms[first_index(method_keys(ms), k)].pipeline,
    )
}

/// The segments of the literal children, in order.
pub open spec fn route_keys<P, V>(routes: Seq<Route<P, V>>) -> Seq<Seq<char>> {
    routes.map_values(|r: Route<P, V>| r.segment@)
}

/// The segments under which `insert` stores a path: the root path is stored
/// under the empty segment.
pub open spec fn target_segments(path: Seq<char>) -> Seq<Seq<char>> {
    if trimmed(path) == seq!['/'] {
        seq![Seq::<char>::empty()]
    } else {
        segments_of(path)
    }
}

/// `new` is what stands at a slot that held `prev` once `item` is stored there.
pub open spec fn settled<P, V>(prev: Option<PathResolver<P, V>>, item: Slot<P, V>, new: PathResolver<P, V>) -> bool {
    match item {
        Slot::Entry(e) => new == e,
        Slot::Method(m, p) => match new {
            PathResolver::Pipeline(ms) => methods_of(ms@) == (match prev {
                Some(PathResolver::Pipeline(old_ms)) => methods_of(old_ms@),
                _ => Map::empty(),
            }).insert(m@, p),
            _ => false,
        },
    }
}

impl<P, V> Router<P, V> {
    /// The literal child for `key`, if any.
    pub open spec fn child(&self, key: Seq<char>) -> Option<PathResolver<P, V>> {
        let i = first_index(route_keys(self.routes@), key);
        if 0 <= i < self.routes@.len() {
            Some(self.routes@[i].resolver)
        } else {
            None
        }
    }

    /// A node with no children and no data.
    pub open spec fn is_empty(&self) -> bool {
        &&& self.routes@.len() == 0
        &&& self.fallback is None
        &&& self.data@ == Map::<u64, V>::empty()
    }

    /// `self` and `other` have the same literal children.
    pub open spec fn same_children(&self, other: &Self) -> bool {
        forall|k: Seq<char>| #[trigger] self.child(k) == other.child(k)
    }

    /// `self` has the literal children of `other`, but under `key`.
    pub open spec fn same_children_but(&self, other: &Self, key: Seq<char>) -> bool {
        forall|k: Seq<char>| k != key ==> #[trigger] self.child(k) == other.child(k)
    }

    /// The node that a slot holding `prev` becomes when a longer path is
    /// stored through it: a nested router stays, another entry moves under
    /// the empty segment of a new node, and an empty slot gets an empty node.
    pub open spec fn promoted(prev: Option<PathResolver<P, V>>, base: Self) -> bool {
        match prev {
            Some(PathResolver::Router(b)) => base == *b,
            Some(e) => {
                &&& base.routes@.len() == 1
                &&& base.routes@[0].segment@ == Seq::<char>::empty()
                &&& base.routes@[0].resolver == e
                &&& base.fallback is None
                &&& base.data@ == Map::<u64, V>::empty()
            },
            None => base.is_empty(),
        }
    }

    /// `new` is `old` with `item` stored at the end of `segs`.
    pub open spec fn inserted(old: Self, new: Self, segs: Seq<Seq<char>>, item: Slot<P, V>) -> bool
        decreases segs.len(),
    {
        if segs.len() == 0 {
            new == old
        } else {
            let seg = segs[0];
            let rest = segs.drop_first();
            &&& new.data == old.data
            &&& if is_placeholder(seg) {
                &&& new.same_children(&old)
                &&& if rest.len() == 0 {
                    &&& new.fallback is Some
                    &&& settled(old.fallback, item, new.fallback->0)
                } else {
                    match new.fallback {
                        Some(PathResolver::Router(sub)) => exists|base: Self|
                            #[trigger] Self::promoted(old.fallback, base) && Self::inserted(base, *sub, rest, item),
                        _ => false,
                    }
                }
            } else {
                &&& new.fallback == old.fallback
                &&& new.same_children_but(&old, seg)
                &&& if rest.len() == 0 {
                    &&& new.child(seg) is Some
                    &&& settled(old.child(seg), item, new.child(seg)->0)
                } else {
                    match new.child(seg) {
                        Some(PathResolver::Router(sub)) => exists|base: Self|
                            #[trigger] Self::promoted(old.child(seg), base) && Self::inserted(base, *sub, rest, item),
                        _ => false,
                    }
                }
            }
        }
    }

    /// What resolving `segs` at this node gives: the entry reached and the
    /// data gathered on the way, starting from `acc`. A literal child beats
    /// the placeholder child; a leaf reached through a literal child matches
    /// whatever remains of the path, one reached through the placeholder only
    /// when nothing remains.
    pub open spec fn resolve_spec(&self, segs: Seq<Seq<char>>, acc: Map<u64, V>) -> Option<(PathResolver<P, V>, Map<u64, V>)>
        decreases self,
    {
        let data = acc.union_prefer_right(self.data@);
        let seg = if segs.len() == 0 { Seq::<char>::empty() } else { segs[0] };
        let rest = if segs.len() == 0 { segs } else { segs.drop_first() };
        let i = first_index(route_keys(self.routes@), seg);
        if 0 <= i < self.routes@.len() {
            match self.routes@[i].resolver {
                PathResolver::Router(sub) => sub.resolve_spec(rest, data),
                e => Some((e, data)),
            }
        } else {
            match self.fallback {
                Some(PathResolver::Router(sub)) => sub.resolve_spec(rest, data),
                Some(e) => if rest.len() == 0 {
                    Some((e, data))
                } else {
                    None
                },
                None => None,
            }
        }
    }
}

/// Appending a literal child for a segment that had none adds that child alone.
proof fn lemma_child_after_push<P, V>(old: Router<P, V>, new: Router<P, V>, route: Route<P, V>)
    requires
        new.routes@ == old.routes@.push(route),
        first_index(route_keys(old.routes@), route.segment@) == -1,
    ensures
        new.same_children_but(&old, route.segment@),
        new.child(route.segment@) == Some(route.resolver),
{
    let keys = route_keys(old.routes@);
    assert(route_keys(new.routes@) =~= keys.push(route.segment@));
    assert forall|k: Seq<char>| k != route.segment@ implies #[trigger] new.child(k) == old.child(k) by {
        lemma_first_index_push(keys, route.segment@, k);
        lemma_first_index_range(keys, k);
    }
    lemma_first_index_push(keys, route.segment@, route.segment@);
}

/// Replacing the resolver of the literal child for `key` changes that child alone.
proof fn lemma_child_after_update<P, V>(old: Router<P, V>, new: Router<P, V>, key: Seq<char>, i: int, res: PathResolver<P, V>)
    requires
        0 <= i < old.routes@.len(),
        i == first_index(route_keys(old.routes@), key),
        new.routes@ == old.routes@.update(i, Route { segment: old.routes@[i].segment, resolver: res }),
    ensures
        new.same_children_but(&old, key),
        new.child(key) == Some(res),
{
    let keys = route_keys(old.routes@);
    lemma_first_index_range(keys, key);
    assert(route_keys(new.routes@) =~= keys);
    assert forall|k: Seq<char>| k != key implies #[trigger] new.child(k) == old.child(k) by {
        lemma_first_index_range(keys, k);
    }
}

impl<P, V> Router<P, V> {
    /// A router with no routes and no data.
    pub fn new() -> (r: Self)
        ensures
            r.is_empty(),
    {
        Router { routes: Vec::new(), fallback: None, data: DataContainer::new() }
    }

    /// Index of the literal child for `seg`, if any.
    fn find_route(&self, seg: &String) -> (r: Option<usize>)
        ensures
            match r {
                Some(i) => i == first_index(route_keys(self.routes@), seg@) && i < self.routes@.len(),
                None => first_index(route_keys(self.routes@), seg@) == -1,
            },
    {
        let ghost keys = route_keys(self.routes@);
        proof {
            lemma_first_index_range(keys, seg@);
        }
        let mut i: usize = 0;
        while i < self.routes.len()
            invariant
                0 <= i <= self.routes@.len(),
                keys == route_keys(self.routes@),
                forall|j: int| 0 <= j < i ==> keys[j] != seg@,
            decreases self.routes@.len() - i,
        {
            if self.routes[i].segment == *seg {
                proof {
                    lemma_first_index_at(keys, seg@, i as int);
                }
                return Some(i);
            }
            i = i + 1;
        }
        None
    }

    /// Replaces the literal child found at index `i`, keeping its segment.
    fn replace_route(&mut self, i: usize, resolver: PathResolver<P, V>) -> (prev: PathResolver<P, V>)
        requires
            i < old(self).routes@.len(),
        ensures
            prev == old(self).routes@[i as int].resolver,
            final(self).routes@ == old(self).routes@.update(i as int, Route { segment: old(self).routes@[i as int].segment, resolver }),
            final(self).fallback == old(self).fallback,
            final(self).data == old(self).data,
    {
        let route = self.routes.remove(i);
        let prev = route.resolver;
        self.routes.insert(i, Route { segment: route.segment, resolver });
        proof {
            assert(self.routes@ =~= old(self).routes@.update(i as int, Route { segment: old(self).routes@[i as int].segment, resolver }));
        }
        prev
    }

    /// The node that a slot holding `prev` becomes when a longer path is
    /// stored through it.
    fn promote(prev: Option<PathResolver<P, V>>) -> (r: Self)
        ensures
            Self::promoted(prev, r),
    {
        match prev {
            Some(PathResolver::Router(b)) => *b,
            Some(e) => {
                let mut r = Router::new();
                r.routes.push(Route { segment: String::new(), resolver: e });
                r
            },
            None => Router::new(),
        }
    }

    /// Stores `item` at the literal child `seg`, which becomes a leaf.
    fn place_literal(&mut self, seg: &String, item: Slot<P, V>)
        ensures
            final(self).data == old(self).data,
            final(self).fallback == old(self).fallback,
            final(self).same_children_but(old(self), seg@),
            final(self).child(seg@) is Some,
            settled(old(self).child(seg@), item, final(self).child(seg@)->0),
    {
        match self.find_route(seg) {
            Some(i) => {
                let tmp = PathResolver::Placeholder(String::new());
                let prev = self.replace_route(i, tmp);
                let r = settle(Some(prev), item);
                let ghost rv = r;
                self.replace_route(i, r);
                proof {
                    assert(self.routes@ =~= old(self).routes@.update(i as int, Route { segment: old(self).routes@[i as int].segment, resolver: rv }));
                    lemma_child_after_update(*old(self), *self, seg@, i as int, rv);
                }
            },
            None => {
                let r = settle(None, item);
                let route = Route { segment: seg.clone(), resolver: r };
                let ghost rt = route;
                self.routes.push(route);
                proof {
                    lemma_child_after_push(*old(self), *self, rt);
                }
            },
        }
    }

    /// Stores `item` at the end of `segs[k..]`, creating nested routers on
    /// the way.
    fn insert_at(&mut self, segs: &Vec<String>, k: usize, item: Slot<P, V>)
        requires
            k < segs@.len(),
        ensures
            Self::inserted(*old(self), *final(self), views(segs@).subrange(k as int, segs@.len() as int), item),
        decreases segs@.len() - k,
    {
        let ghost all = views(segs@).subrange(k as int, segs@.len() as int);
        let ghost rest = views(segs@).subrange(k + 1, segs@.len() as int);
        proof {
            assert(all.drop_first() =~= rest);
            assert(all[0] == segs@[k as int]@);
            assert(all.len() > 0);
        }
        let seg = &segs[k];
        let is_ph = placeholder(seg);
        if k == segs.len() - 1 {
            if is_ph {
                let prev = self.fallback.take();
                self.fallback = Some(settle(prev, item));
                proof {
                    assert(self.same_children(old(self)));
                    assert(rest.len() == 0);
                    assert(Self::inserted(*old(self), *self, all, item));
                }
            } else {
                self.place_literal(seg, item);
                proof {
                    assert(rest.len() == 0);
                    assert(Self::inserted(*old(self), *self, all, item));
                }
            }
        } else if is_ph {
            let prev = self.fallback.take();
            let mut sub = Self::promote(prev);
            let ghost base = sub;
            sub.insert_at(segs, k + 1, item);
            self.fallback = Some(PathResolver::Router(Box::new(sub)));
            proof {
                assert(self.same_children(old(self)));
                assert(Self::promoted(old(self).fallback, base) && Self::inserted(base, sub, rest, item));
                assert(rest.len() > 0);
                assert(Self::inserted(*old(self), *self, all, item));
            }
        } else {
            match self.find_route(seg) {
                Some(i) => {
                    let tmp = PathResolver::Placeholder(String::new());
                    let prev = self.replace_route(i, tmp);
                    let mut sub = Self::promote(Some(prev));
                    let ghost base = sub;
                    sub.insert_at(segs, k + 1, item);
                    let ghost sub_v = sub;
                    self.replace_route(i, PathResolver::Router(Box::new(sub)));
                    proof {
                        assert(self.routes@ =~= old(self).routes@.update(i as int, Route { segment: old(self).routes@[i as int].segment, resolver: PathResolver::Router(Box::new(sub_v)) }));
                        lemma_child_after_update(*old(self), *self, seg@, i as int, PathResolver::Router(Box::new(sub_v)));
                        assert(Self::promoted(old(self).child(all[0]), base) && Self::inserted(base, sub_v, all.drop_first(), item));
                        assert(rest.len() > 0);
                        assert(Self::inserted(*old(self), *self, all, item));
                    }
                },
                None => {
                    let mut sub = Self::new();
                    let ghost base = sub;
                    sub.insert_at(segs, k + 1, item);
                    let ghost sub_v = sub;
                    let route = Route { segment: seg.clone(), resolver: PathResolver::Router(Box::new(sub)) };
                    let ghost rt = route;
                    self.routes.push(route);
                    proof {
                        lemma_child_after_push(*old(self), *self, rt);
                        assert(Self::promoted(old(self).child(all[0]), base) && Self::inserted(base, sub_v, all.drop_first(), item));
                        assert(rest.len() > 0);
                        assert(Self::inserted(*old(self), *self, all, item));
                    }
                },
            }
        }
    }

    /// Stores `item` under `path`.
    fn store(&mut self, path: &str, item: Slot<P, V>)
        ensures
            Self::inserted(*old(self), *final(self), target_segments(path@), item),
            graphic_ends(path@) ==> trimmed(path@) == path@,
    {
        if is_root_path(path) {
            let mut segs: Vec<String> = Vec::new();
            segs.push(String::new());
            proof {
                assert(views(segs@).subrange(0, 1) =~= seq![Seq::<char>::empty()]);
            }
            self.insert_at(&segs, 0, item);
        } else {
            let segs = split_path(path);
            if segs.len() > 0 {
                proof {
                    assert(views(segs@).subrange(0, segs@.len() as int) =~= views(segs@));
                }
                self.insert_at(&segs, 0, item);
            }
        }
    }

    /// Stores `resolver` under `path`. A segment `:name` is a placeholder;
    /// the root path `/` is stored under the empty segment; a path with no
    /// segment stores nothing.
    pub fn insert(&mut self, path: &str, resolver: PathResolver<P, V>)
        ensures
            graphic_ends(path@) ==> trimmed(path@) == path@,
            Self::inserted(*old(self), *final(self), target_segments(path@), Slot::Entry(resolver)),
    {
        self.store(path, Slot::Entry(resolver));
    }

    /// Registers `pipeline` for requests with method `method` under `path`,
    /// beside the pipelines of other methods already registered there.
    pub fn add_pipeline(&mut self, path: &str, method: String, pipeline: P)
        ensures
            graphic_ends(path@) ==> trimmed(path@) == path@,
            Self::inserted(*old(self), *final(self), target_segments(path@), Slot::Method(method, pipeline)),
    {
        self.store(path, Slot::Method(method, pipeline));
    }

    /// Registers `pipeline` for requests with method `method` under `path`.
    pub fn add_route(&mut self, path: &str, method: Method, pipeline: P)
        ensures
            graphic_ends(path@) ==> trimmed(path@) == path@,
            exists|name: String| name@ == method_name(method) && Self::inserted(*old(self), *final(self), target_segments(path@), Slot::Method(name, pipeline)),
    {
        let name = method.as_str();
        self.add_pipeline(path, name, pipeline);
    }

    /// Mounts under `path` a nested router that `module` builds from an
    /// empty one.
    pub fn add_module<T: Module<P, V>>(&mut self, path: &str, module: T)
        ensures
            graphic_ends(path@) ==> trimmed(path@) == path@,
            exists|empty: Self, sub: Self|
                empty.is_empty() && #[trigger] module.builds(empty, sub)
                    && Self::inserted(*old(self), *final(self), target_segments(path@), Slot::Entry(PathResolver::Router(Box::new(sub)))),
    {
        let mut sub = Router::new();
        let ghost empty = sub;
        let ghost m = module;
        module.build(&mut sub);
        let ghost built = sub;
        self.insert(path, PathResolver::Router(Box::new(sub)));
        assert(empty.is_empty() && m.builds(empty, built));
        assert(Self::inserted(*old(self), *self, target_segments(path@), Slot::Entry(PathResolver::Router(Box::new(built)))));
    }

    /// Adds `value` under the type token `key` to the data of this node,
    /// which every route beneath it sees.
    pub fn add_data(&mut self, key: u64, value: V)
        ensures
            final(self).data@ == old(self).data@.insert(key, value),
            final(self).routes == old(self).routes,
            final(self).fallback == old(self).fallback,
    {
        self.data.add(key, value);
    }

    /// Resolves `segs[k..]` from this node, with `acc` the data gathered
    /// above it.
    fn resolve_at<'a>(&'a self, segs: &Vec<String>, k: usize, acc: DataContainer<V>) -> (r: Option<(&'a PathResolver<P, V>, DataContainer<V>)>)
        requires
            k <= segs@.len(),
        ensures
            match r {
                Some((e, d)) => self.resolve_spec(views(segs@).subrange(k as int, segs@.len() as int), acc@) == Some((*e, d@)),
                None => self.resolve_spec(views(segs@).subrange(k as int, segs@.len() as int), acc@) is None,
            },
        decreases self,
    {
        let ghost all = views(segs@).subrange(k as int, segs@.len() as int);
        let data = acc.combine(&self.data);
        let empty = String::new();
        let seg: &String = if k < segs.len() {
            &segs[k]
        } else {
            &empty
        };
        let next: usize = if k < segs.len() {
            k + 1
        } else {
            k
        };
        proof {
            if k < segs@.len() {
                assert(all.drop_first() =~= views(segs@).subrange(next as int, segs@.len() as int));
                assert(all[0] == seg@);
            } else {
                assert(all =~= views(segs@).subrange(next as int, segs@.len() as int));
            }
        }
        match self.find_route(seg) {
            Some(i) => match &self.routes[i].resolver {
                PathResolver::Router(sub) => sub.resolve_at(segs, next, data),
                e => Some((e, data)),
            },
            None => match &self.fallback {
                Some(PathResolver::Router(sub)) => sub.resolve_at(segs, next, data),
                Some(e) => if next == segs.len() {
                    Some((e, data))
                } else {
                    None
                },
                None => None,
            },
        }
    }

    /// Finds the entry that `path` resolves to, with the data of every node
    /// on the way combined, the deeper node winning on a shared key.
    pub fn resolve<'a>(&'a self, path: &str) -> (r: Option<(&'a PathResolver<P, V>, DataContainer<V>)>)
        ensures
            match r {
                Some((e, d)) => self.resolve_spec(segments_of(path@), Map::empty()) == Some((*e, d@)),
                None => self.resolve_spec(segments_of(path@), Map::empty()) is None,
            },
    {
        let segs = split_path(path);
        proof {
            assert(views(segs@).subrange(0, segs@.len() as int) =~= views(segs@));
        }
        self.resolve_at(&segs, 0, DataContainer::new())
    }
}

/// Stores `item` in a slot that held `prev`.
fn settle<P, V>(prev: Option<PathResolver<P, V>>, item: Slot<P, V>) -> (r: PathResolver<P, V>)
    ensures
        settled(prev, item, r),
{
    match item {
        Slot::Entry(e) => e,
        Slot::Method(m, p) => {
            let mut ms = match prev {
                Some(PathResolver::Pipeline(ms)) => ms,
                _ => Vec::new(),
            };
            proof {
                assert(methods_of(Seq::<MethodRoute<P>>::empty()) =~= Map::<Seq<char>, P>::empty());
            }
            set_method(&mut ms, m, p);
            PathResolver::Pipeline(ms)
        },
    }
}

/// Binds `method` to `pipeline` in a method map.
fn set_method<P>(ms: &mut Vec<MethodRoute<P>>, method: String, pipeline: P)
    ensures
        methods_of(final(ms)@) == methods_of(old(ms)@).insert(method@, pipeline),
{
    let ghost keys = method_keys(old(ms)@);
    proof {
        lemma_first_index_range(keys, method@);
    }
    let mut i: usize = 0;
    while i < ms.len()
        invariant
            0 <= i <= ms@.len(),
            ms@ == old(ms)@,
            keys == method_keys(ms@),
            forall|j: int| 0 <= j < i ==> keys[j] != method@,
        decreases ms@.len() - i,
    {
        if ms[i].method == method {
            proof {
                lemma_first_index_at(keys, method@, i as int);
            }
            let ghost m_view = method@;
            ms.set(i, MethodRoute { method, pipeline });
            proof {
                assert(method_keys(ms@) =~= keys);
                assert forall|k: Seq<char>| true implies #[trigger] first_index(keys, k) < ms@.len()
                    && (first_index(keys, k) >= 0 ==> keys[first_index(keys, k)] == k) by {
                    lemma_first_index_range(keys, k);
                }
                assert(methods_of(ms@) =~= methods_of(old(ms)@).insert(m_view, pipeline));
            }
            return;
        }
        i = i + 1;
    }
    let ghost m_view = method@;
    ms.push(MethodRoute { method, pipeline });
    proof {
        assert(method_keys(ms@) =~= keys.push(m_view));
        assert forall|k: Seq<char>| true implies #[trigger] first_index(method_keys(ms@), k)
            == if first_index(keys, k) >= 0 {
                first_index(keys, k)
            } else if m_view == k {
                keys.len() as int
            } else {
                -1
            } by {
            lemma_first_index_push(keys, m_view, k);
            lemma_first_index_range(keys, k);
        }
        assert forall|k: Seq<char>| first_index(keys, k) >= 0 implies #[trigger] ms@[first_index(keys, k)] == old(ms)@[first_index(keys, k)] by {
            lemma_first_index_range(keys, k);
        }
        assert(methods_of(ms@) =~= methods_of(old(ms)@).insert(m_view, pipeline));
    }
}

} // verus!
