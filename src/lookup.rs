use vstd::prelude::*;

use crate::arena::Offset;
use crate::graph::DependenceRelation;
use crate::ids::{ActorId, ContextId};

verus! {

/// The registry's number for a concrete actor type.
#[derive(Clone, Copy, Debug, PartialEq, Eq, Structural, Hash)]
pub struct ActorType(pub u32);

/// Where an actor lives: its context and its offset in that context's arena.
#[derive(Clone, Copy, Debug, PartialEq, Eq, Structural)]
pub struct Loc {
    pub context_id: ContextId,
    pub offset: Offset,
}

/// One actor of the tree: its id, its concrete type and where it lives.
#[derive(Clone, Copy, Debug, PartialEq, Eq, Structural)]
pub struct ActorData {
    pub id: ActorId,
    pub actor_type: ActorType,
    pub loc: Loc,
}

/// Every actor of the system, in partition order: the actors of context 1 in
/// configuration order, then those of context 2, and so on.
pub struct ActorTree {
    pub actors: Vec<ActorData>,
}

/// A typed handle to an actor: where it lives, and the metadata that rebuilds a
/// pointer to it (nothing for a concrete type, the dispatch table for an
/// interface).
#[derive(Clone, Copy, Debug)]
pub struct Key<M> {
    pub loc: Loc,
    pub meta: M,
}

/// A key to an actor of the same context that was made before its holder and
/// is recorded in the dependence graph.
#[derive(Clone, Copy, Debug)]
pub struct AcyclicLocalKey<M> {
    pub offset: Offset,
    pub meta: M,
}

/// That the concrete type `actor_type` implements an interface, with the
/// dispatch metadata of that implementation.
#[derive(Clone, Copy, Debug)]
pub struct InterfaceMetadata<M> {
    pub actor_type: ActorType,
    pub dyn_meta: M,
}

/// The targets of a broadcast, grouped by context: for each context, the offset
/// and metadata of each of its targets.
pub struct BroadcastGroup<M> {
    pub by_context: Vec<(ContextId, Vec<(Offset, M)>)>,
}

/// Why a query for a direct key fails.
#[derive(Clone, Copy, Debug, PartialEq, Eq, Structural)]
pub enum LookupError {
    /// No actor matches.
    NotFound,
    /// More than one actor matches.
    Ambiguous,
    /// The actor lives in another context.
    OtherContext,
    /// The actor is the one asking.
    SelfReference,
}

/// The key that a concrete-type lookup gives for `a`.
pub open spec fn concrete_key(a: ActorData) -> (ActorId, Key<()>) {
    (a.id, Key { loc: a.loc, meta: () })
}

/// The actors of `tree` whose type is `t`, in tree order, with their keys.
pub open spec fn by_type(tree: Seq<ActorData>, t: ActorType) -> Seq<(ActorId, Key<()>)>
    decreases tree.len(),
{
    if tree.len() == 0 {
        Seq::empty()
    } else if tree.last().actor_type == t {
        by_type(tree.drop_last(), t).push(concrete_key(tree.last()))
    } else {
        by_type(tree.drop_last(), t)
    }
}

/// The metadata of the first record of `impls` for the type `t`, if any.
pub open spec fn find_impl<M>(impls: Seq<InterfaceMetadata<M>>, t: ActorType) -> Option<M>
    decreases impls.len(),
{
    if impls.len() == 0 {
        None
    } else if impls[0].actor_type == t {
        Some(impls[0].dyn_meta)
    } else {
        find_impl(impls.drop_first(), t)
    }
}

/// The actors of `tree` whose type has a record in `impls`, in tree order, with
/// keys that carry that record's metadata.
pub open spec fn by_interface<M>(tree: Seq<ActorData>, impls: Seq<InterfaceMetadata<M>>) -> Seq<
    (ActorId, Key<M>),
>
    decreases tree.len(),
{
    if tree.len() == 0 {
        Seq::empty()
    } else {
        match find_impl(impls, tree.last().actor_type) {
            Some(m) => by_interface(tree.drop_last(), impls).push(
                (tree.last().id, Key { loc: tree.last().loc, meta: m }),
            ),
            None => by_interface(tree.drop_last(), impls),
        }
    }
}

proof fn lemma_find_impl<M>(impls: Seq<InterfaceMetadata<M>>, t: ActorType)
    ensures
        find_impl(impls, t) matches Some(m) ==> exists|i: int|
            0 <= i < impls.len() && #[trigger] impls[i].actor_type == t && impls[i].dyn_meta == m,
        find_impl(impls, t) is None ==> forall|i: int|
            0 <= i < impls.len() ==> #[trigger] impls[i].actor_type != t,
    decreases impls.len(),
{
    if impls.len() > 0 {
        lemma_find_impl(impls.drop_first(), t);
        if find_impl(impls, t) is Some && impls[0].actor_type != t {
            let i = choose|i: int|
                0 <= i < impls.len() - 1 && #[trigger] impls.drop_first()[i].actor_type == t
                    && impls.drop_first()[i].dyn_meta == find_impl(impls, t)->Some_0;
            assert(impls[i + 1] == impls.drop_first()[i]);
        }
        if find_impl(impls, t) is None {
            assert forall|i: int| 0 <= i < impls.len() implies #[trigger] impls[i].actor_type
                != t by {
                if i > 0 {
                    assert(impls[i] == impls.drop_first()[i - 1]);
                }
            }
        }
    }
}

/// The first record of `impls` for the type `t`.
fn impl_for<M: Copy>(impls: &[InterfaceMetadata<M>], t: ActorType) -> (r: Option<M>)
    ensures
        r == find_impl(impls@, t),
{
    let mut i: usize = 0;
    assert(impls@.subrange(0, impls@.len() as int) =~= impls@);
    while i < impls.len()
        invariant
            0 <= i <= impls@.len(),
            find_impl(impls@, t) == find_impl(impls@.subrange(i as int, impls@.len() as int), t),
        decreases impls@.len() - i,
    {
        let ghost rest = impls@.subrange(i as int, impls@.len() as int);
        assert(rest.drop_first() =~= impls@.subrange(i + 1, impls@.len() as int));
        if impls[i].actor_type.0 == t.0 {
            return Some(impls[i].dyn_meta);
        }
        i += 1;
    }
    None
}

/// The tree entries of the actors `actors` of context `c`.
pub open spec fn context_entries(c: ContextId, actors: Seq<(ActorId, ActorType, Offset)>) -> Seq<
    ActorData,
> {
    actors.map_values(
        |a: (ActorId, ActorType, Offset)|
            ActorData { id: a.0, actor_type: a.1, loc: Loc { context_id: c, offset: a.2 } },
    )
}

/// The keys of a lookup's result, without the actor ids.
pub open spec fn keys_of<M>(found: Seq<(ActorId, Key<M>)>) -> Seq<Key<M>> {
    found.map_values(|f: (ActorId, Key<M>)| f.1)
}

/// The keys of a lookup's result, in order.
pub fn all_keys<M: Copy>(found: &[(ActorId, Key<M>)]) -> (r: Vec<Key<M>>)
    ensures
        r@ == keys_of(found@),
{
    let mut r: Vec<Key<M>> = Vec::with_capacity(found.len());
    let mut i: usize = 0;
    while i < found.len()
        invariant
            0 <= i <= found@.len(),
            r@ == keys_of(found@.take(i as int)),
        decreases found@.len() - i,
    {
        r.push(found[i].1);
        i += 1;
        assert(r@ =~= keys_of(found@.take(i as int)));
    }
    assert(found@.take(i as int) =~= found@);
    r
}

impl ActorTree {
    /// A tree without actors.
    pub fn new() -> (r: Self)
        ensures
            r.actors@ == Seq::<ActorData>::empty(),
    {
        ActorTree { actors: Vec::new() }
    }

    /// Appends the actors of context `c`, each given by its id, its type and its
    /// offset in the context's arena, in order.
    pub fn push_context(&mut self, c: ContextId, actors: &[(ActorId, ActorType, Offset)])
        ensures
            final(self).actors@ == old(self).actors@ + context_entries(c, actors@),
    {
        let mut i: usize = 0;
        while i < actors.len()
            invariant
                0 <= i <= actors@.len(),
                self.actors@ == old(self).actors@ + context_entries(c, actors@.take(i as int)),
            decreases actors@.len() - i,
        {
            let (id, actor_type, offset) = actors[i];
            self.actors.push(ActorData { id, actor_type, loc: Loc { context_id: c, offset } });
            i += 1;
            assert(self.actors@ =~= old(self).actors@ + context_entries(c, actors@.take(i as int)));
        }
        assert(actors@.take(i as int) =~= actors@);
    }
    /// Every actor of concrete type `t`, in tree order, with its key.
    pub fn lookup_by_type(&self, t: ActorType) -> (r: Vec<(ActorId, Key<()>)>)
        ensures
            r@ == by_type(self.actors@, t),
    {
        let ghost tree = self.actors@;
        let mut r: Vec<(ActorId, Key<()>)> = Vec::new();
        let mut i: usize = 0;
        while i < self.actors.len()
            invariant
                tree == self.actors@,
                0 <= i <= tree.len(),
                r@ == by_type(tree.take(i as int), t),
            decreases tree.len() - i,
        {
            let a = self.actors[i];
            assert(tree.take(i + 1).drop_last() =~= tree.take(i as int));
            if a.actor_type.0 == t.0 {
                r.push((a.id, Key { loc: a.loc, meta: () }));
            }
            i += 1;
        }
        assert(tree.take(i as int) =~= tree);
        r
    }

    /// Every actor whose type implements the interface whose implementations are
    /// `impls`, in tree order, with a key that carries its dispatch metadata.
    pub fn lookup_by_interface<M: Copy>(&self, impls: &[InterfaceMetadata<M>]) -> (r: Vec<
        (ActorId, Key<M>),
    >)
        ensures
            r@ == by_interface(self.actors@, impls@),
    {
        let ghost tree = self.actors@;
        let mut r: Vec<(ActorId, Key<M>)> = Vec::new();
        let mut i: usize = 0;
        while i < self.actors.len()
            invariant
                tree == self.actors@,
                0 <= i <= tree.len(),
                r@ == by_interface(tree.take(i as int), impls@),
            decreases tree.len() - i,
        {
            let a = self.actors[i];
            assert(tree.take(i + 1).drop_last() =~= tree.take(i as int));
            match impl_for(impls, a.actor_type) {
                Some(m) => {
                    r.push((a.id, Key { loc: a.loc, meta: m }));
                },
                None => {},
            }
            i += 1;
        }
        assert(tree.take(i as int) =~= tree);
        r
    }
}

/// Lookup soundness: every key that a lookup by type gives points at an actor
/// of the tree of that type, and every key that a lookup by interface gives
/// points at an actor whose type has an implementation record, whose metadata
/// the key carries.
pub proof fn lemma_lookup_sound<M>(
    tree: Seq<ActorData>,
    t: ActorType,
    impls: Seq<InterfaceMetadata<M>>,
)
    ensures
        forall|k: int|
            0 <= k < by_type(tree, t).len() ==> exists|j: int|
                0 <= j < tree.len() && tree[j].actor_type == t && tree[j].id == (
                #[trigger] by_type(tree, t)[k]).0 && tree[j].loc == by_type(tree, t)[k].1.loc,
        forall|k: int|
            0 <= k < by_interface(tree, impls).len() ==> exists|j: int, i: int|
                0 <= j < tree.len() && 0 <= i < impls.len() && tree[j].id == (
                #[trigger] by_interface(tree, impls)[k]).0 && tree[j].loc == by_interface(
                    tree,
                    impls,
                )[k].1.loc && impls[i].actor_type == tree[j].actor_type && impls[i].dyn_meta
                    == by_interface(tree, impls)[k].1.meta,
    decreases tree.len(),
{
    if tree.len() > 0 {
        let prev = tree.drop_last();
        let j0 = tree.len() - 1;
        lemma_lookup_sound(prev, t, impls);
        assert forall|k: int| 0 <= k < by_type(tree, t).len() implies exists|j: int|
            0 <= j < tree.len() && tree[j].actor_type == t && tree[j].id == (
            #[trigger] by_type(tree, t)[k]).0 && tree[j].loc == by_type(tree, t)[k].1.loc by {
            if k < by_type(prev, t).len() {
                assert(by_type(tree, t)[k] == by_type(prev, t)[k]);
                let j = choose|j: int|
                    0 <= j < prev.len() && prev[j].actor_type == t && prev[j].id == (
                    #[trigger] by_type(prev, t)[k]).0 && prev[j].loc == by_type(prev, t)[k].1.loc;
                assert(tree[j] == prev[j]);
            } else {
                assert(tree[j0] == tree.last());
            }
        }
        lemma_find_impl(impls, tree.last().actor_type);
        assert forall|k: int| 0 <= k < by_interface(tree, impls).len() implies exists|j: int, i: int|
            0 <= j < tree.len() && 0 <= i < impls.len() && tree[j].id == (
            #[trigger] by_interface(tree, impls)[k]).0 && tree[j].loc == by_interface(
                tree,
                impls,
            )[k].1.loc && impls[i].actor_type == tree[j].actor_type && impls[i].dyn_meta
                == by_interface(tree, impls)[k].1.meta by {
            if k < by_interface(prev, impls).len() {
                assert(by_interface(tree, impls)[k] == by_interface(prev, impls)[k]);
                let (j, i) = choose|j: int, i: int|
                    0 <= j < prev.len() && 0 <= i < impls.len() && prev[j].id == (
                    #[trigger] by_interface(prev, impls)[k]).0 && prev[j].loc == by_interface(
                        prev,
                        impls,
                    )[k].1.loc && impls[i].actor_type == prev[j].actor_type && impls[i].dyn_meta
                        == by_interface(prev, impls)[k].1.meta;
                assert(tree[j] == prev[j]);
            } else {
                assert(tree[j0] == tree.last());
            }
        }
    }
}

/// The contexts of the keys `keys`, each once, in order of first appearance.
pub open spec fn group_contexts<M>(keys: Seq<(ActorId, Key<M>)>) -> Seq<ContextId>
    decreases keys.len(),
{
    if keys.len() == 0 {
        Seq::empty()
    } else {
        let prev = group_contexts(keys.drop_last());
        if prev.contains(keys.last().1.loc.context_id) {
            prev
        } else {
            prev.push(keys.last().1.loc.context_id)
        }
    }
}

/// The offset and metadata of each key of `keys` in context `c`, in order.
pub open spec fn targets_in<M>(keys: Seq<(ActorId, Key<M>)>, c: ContextId) -> Seq<(Offset, M)>
    decreases keys.len(),
{
    if keys.len() == 0 {
        Seq::empty()
    } else if keys.last().1.loc.context_id == c {
        targets_in(keys.drop_last(), c).push((keys.last().1.loc.offset, keys.last().1.meta))
    } else {
        targets_in(keys.drop_last(), c)
    }
}

/// The contexts of a group are distinct, and are those of the keys.
proof fn lemma_group_contexts<M>(keys: Seq<(ActorId, Key<M>)>)
    ensures
        group_contexts(keys).no_duplicates(),
        forall|c: ContextId|
            #[trigger] group_contexts(keys).contains(c) <==> exists|k: int|
                0 <= k < keys.len() && keys[k].1.loc.context_id == c,
    decreases keys.len(),
{
    if keys.len() > 0 {
        let prev = keys.drop_last();
        lemma_group_contexts(prev);
        let g = group_contexts(keys);
        let gp = group_contexts(prev);
        assert forall|c: ContextId| #[trigger] g.contains(c) <==> exists|k: int|
            0 <= k < keys.len() && keys[k].1.loc.context_id == c by {
            if g.contains(c) {
                if gp.contains(c) {
                    let k = choose|k: int| 0 <= k < prev.len() && prev[k].1.loc.context_id == c;
                    assert(keys[k] == prev[k]);
                } else {
                    let i = choose|i: int| 0 <= i < g.len() && g[i] == c;
                    if i < gp.len() {
                        assert(gp[i] == g[i]);
                    }
                    assert(keys[keys.len() - 1].1.loc.context_id == c);
                }
            }
            if exists|k: int| 0 <= k < keys.len() && keys[k].1.loc.context_id == c {
                let k = choose|k: int| 0 <= k < keys.len() && keys[k].1.loc.context_id == c;
                if k < keys.len() - 1 {
                    assert(prev[k] == keys[k]);
                    assert(gp.contains(c));
                    let i = choose|i: int| 0 <= i < gp.len() && gp[i] == c;
                    assert(g[i] == c);
                } else if !gp.contains(c) {
                    assert(g[g.len() - 1] == c);
                }
            }
        }
    }
}

/// Groups the keys `keys` by context, in order of first appearance, each group
/// holding its targets in the order of `keys`.
pub fn broadcast_group<M: Copy>(keys: &[(ActorId, Key<M>)]) -> (r: BroadcastGroup<M>)
    ensures
        r.by_context@.len() == group_contexts(keys@).len(),
        forall|i: int|
            0 <= i < r.by_context@.len() ==> (#[trigger] r.by_context@[i]).0 == group_contexts(
                keys@,
            )[i] && r.by_context@[i].1@ == targets_in(keys@, group_contexts(keys@)[i]),
        forall|i: int, j: int|
            0 <= i < j < r.by_context@.len() ==> (#[trigger] r.by_context@[i]).0 != (
            #[trigger] r.by_context@[j]).0,
        forall|k: int|
            0 <= k < keys@.len() ==> exists|i: int|
                0 <= i < r.by_context@.len() && (#[trigger] r.by_context@[i]).0 == (
                #[trigger] keys@[k]).1.loc.context_id,
{
    proof {
        lemma_group_contexts(keys@);
    }
    let ghost ks = keys@;
    let mut contexts: Vec<ContextId> = Vec::new();
    let mut i: usize = 0;
    while i < keys.len()
        invariant
            ks == keys@,
            0 <= i <= ks.len(),
            contexts@ == group_contexts(ks.take(i as int)),
        decreases ks.len() - i,
    {
        let c = keys[i].1.loc.context_id;
        assert(ks.take(i + 1).drop_last() =~= ks.take(i as int));
        let mut j: usize = 0;
        let mut seen: bool = false;
        while j < contexts.len()
            invariant
                0 <= j <= contexts@.len(),
                seen <==> exists|l: int| 0 <= l < j && contexts@[l] == c,
            decreases contexts@.len() - j,
        {
            if contexts[j].0 == c.0 {
                seen = true;
            }
            j += 1;
        }
        if !seen {
            contexts.push(c);
        }
        i += 1;
    }
    assert(ks.take(i as int) =~= ks);
    let mut by_context: Vec<(ContextId, Vec<(Offset, M)>)> = Vec::with_capacity(contexts.len());
    let mut g: usize = 0;
    while g < contexts.len()
        invariant
            ks == keys@,
            contexts@ == group_contexts(ks),
            0 <= g <= contexts@.len(),
            by_context@.len() == g,
            forall|l: int|
                0 <= l < g ==> (#[trigger] by_context@[l]).0 == contexts@[l] && by_context@[l].1@
                    == targets_in(ks, contexts@[l]),
        decreases contexts@.len() - g,
    {
        let c = contexts[g];
        let mut targets: Vec<(Offset, M)> = Vec::new();
        let mut k: usize = 0;
        while k < keys.len()
            invariant
                ks == keys@,
                0 <= k <= ks.len(),
                targets@ == targets_in(ks.take(k as int), c),
            decreases ks.len() - k,
        {
            assert(ks.take(k + 1).drop_last() =~= ks.take(k as int));
            if keys[k].1.loc.context_id.0 == c.0 {
                targets.push((keys[k].1.loc.offset, keys[k].1.meta));
            }
            k += 1;
        }
        assert(ks.take(k as int) =~= ks);
        by_context.push((c, targets));
        g += 1;
    }
    proof {
        let gc = group_contexts(ks);
        assert forall|k: int| 0 <= k < ks.len() implies exists|i: int|
            0 <= i < by_context@.len() && (#[trigger] by_context@[i]).0 == (
            #[trigger] ks[k]).1.loc.context_id by {
            assert(gc.contains(ks[k].1.loc.context_id));
            let i = choose|i: int| 0 <= i < gc.len() && gc[i] == ks[k].1.loc.context_id;
            assert(by_context@[i].0 == gc[i]);
        }
    }
    BroadcastGroup { by_context }
}

/// How `acyclic_local_key` answers: the one matching actor must live in the
/// asking actor's context and be another actor.
pub open spec fn local_key_result<M>(
    keys: Seq<(ActorId, Key<M>)>,
    own_context: ContextId,
    own_id: ActorId,
) -> Result<AcyclicLocalKey<M>, LookupError> {
    if keys.len() == 0 {
        Err(LookupError::NotFound)
    } else if keys.len() > 1 {
        Err(LookupError::Ambiguous)
    } else if keys[0].1.loc.context_id != own_context {
        Err(LookupError::OtherContext)
    } else if keys[0].0 == own_id {
        Err(LookupError::SelfReference)
    } else {
        Ok(AcyclicLocalKey { offset: keys[0].1.loc.offset, meta: keys[0].1.meta })
    }
}

/// A direct key to the one actor of `keys`, for actor `own_id` of context
/// `own_context`; records the dependence edge from the asking actor to it.
pub fn acyclic_local_key<M: Copy>(
    keys: &[(ActorId, Key<M>)],
    own_context: ContextId,
    own_id: ActorId,
    relations: &mut Vec<DependenceRelation>,
) -> (r: Result<AcyclicLocalKey<M>, LookupError>)
    ensures
        r == local_key_result(keys@, own_context, own_id),
        r is Ok ==> final(relations)@ == old(relations)@.push(
            DependenceRelation { from: own_id, to: keys@[0].0 },
        ),
        r is Err ==> final(relations)@ == old(relations)@,
{
    if keys.len() == 0 {
        return Err(LookupError::NotFound);
    }
    if keys.len() > 1 {
        return Err(LookupError::Ambiguous);
    }
    let (id, key) = keys[0];
    if key.loc.context_id.0 != own_context.0 {
        return Err(LookupError::OtherContext);
    }
    if id.0 == own_id.0 {
        return Err(LookupError::SelfReference);
    }
    relations.push(DependenceRelation { from: own_id, to: id });
    Ok(AcyclicLocalKey { offset: key.loc.offset, meta: key.meta })
}

} // verus!
