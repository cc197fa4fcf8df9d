use vstd::prelude::*;

use crate::ids::{ActorId, ContextId};

verus! {

/// One actor of the configuration: the name its type is registered under and
/// the context it runs in. Its own configuration payload is kept beside it by
/// whoever loaded the configuration.
pub struct ActorConfig {
    pub typename: String,
    pub context: ContextId,
}

/// A namespace of the configuration. Only the root is supported: `children` and
/// `imported_scopes` must be empty.
pub struct Scope {
    pub name: Option<String>,
    pub children: Vec<String>,
    pub actors: Vec<ActorConfig>,
    pub imported_scopes: Vec<String>,
}

/// A context of the configuration. The thread affinity is advisory.
pub struct Context {
    pub id: ContextId,
    pub thread_affinity: Option<Vec<usize>>,
}

/// The configuration that the runtime starts from.
pub struct Config {
    pub root: Scope,
    pub contexts: Vec<Context>,
}

/// Why a configuration is rejected.
#[derive(Clone, Copy, Debug, PartialEq, Eq, Structural)]
pub enum ConfigError {
    /// The root has child namespaces or imports, which are not implemented.
    Namespaces,
    /// The contexts are not numbered 1, 2, ..., N in order.
    ContextIds,
    /// An actor names a context outside 1..=N.
    UnknownContext,
}

/// The contexts of the actors, in configuration order.
pub open spec fn actor_contexts(actors: Seq<ActorConfig>) -> Seq<u32> {
    actors.map_values(|a: ActorConfig| a.context.0)
}

/// True when context `i` (from zero) of `contexts` has the id `i + 1`.
pub open spec fn contexts_dense(contexts: Seq<Context>) -> bool {
    forall|i: int| 0 <= i < contexts.len() ==> #[trigger] contexts[i].id.0 == i + 1
}

/// True when every actor names a context in 1..=n.
pub open spec fn contexts_known(ctxs: Seq<u32>, n: int) -> bool {
    forall|i: int| 0 <= i < ctxs.len() ==> 1 <= #[trigger] ctxs[i] <= n
}

/// The ids of the actors that run in context `c`, in configuration order; the
/// actor at position `i` (from zero) has the id `i + 1`.
pub open spec fn members(ctxs: Seq<u32>, c: int) -> Seq<u32>
    decreases ctxs.len(),
{
    if ctxs.len() == 0 {
        Seq::empty()
    } else if ctxs.last() == c {
        members(ctxs.drop_last(), c).push(ctxs.len() as u32)
    } else {
        members(ctxs.drop_last(), c)
    }
}

/// What the runtime starts: for each context, from the first, the ids of its
/// actors in configuration order.
pub struct Plan {
    pub by_context: Vec<Vec<ActorId>>,
}

/// The raw ids of a list of actor ids.
pub open spec fn raw_ids(v: Seq<ActorId>) -> Seq<u32> {
    v.map_values(|a: ActorId| a.0)
}

/// How `plan` answers a configuration.
pub open spec fn plan_result(config: Config, r: Result<Plan, ConfigError>) -> bool {
    let ctxs = actor_contexts(config.root.actors@);
    let n = config.contexts@.len();
    if config.root.children@.len() != 0 || config.root.imported_scopes@.len() != 0 {
        r == Err::<Plan, ConfigError>(ConfigError::Namespaces)
    } else if !contexts_dense(config.contexts@) {
        r == Err::<Plan, ConfigError>(ConfigError::ContextIds)
    } else if !contexts_known(ctxs, n as int) {
        r == Err::<Plan, ConfigError>(ConfigError::UnknownContext)
    } else {
        r matches Ok(plan) && plan.by_context@.len() == n && forall|c: int|
            0 <= c < n ==> raw_ids(#[trigger] plan.by_context@[c]@) == members(ctxs, c + 1)
    }
}

proof fn lemma_members_step(ctxs: Seq<u32>, i: int, c: int)
    requires
        0 <= i < ctxs.len(),
    ensures
        members(ctxs.take(i + 1), c) == if ctxs[i] == c {
            members(ctxs.take(i), c).push((i + 1) as u32)
        } else {
            members(ctxs.take(i), c)
        },
{
    assert(ctxs.take(i + 1).drop_last() =~= ctxs.take(i));
}

/// The ids of the actors of `actors` that run in context `c`.
fn context_members(actors: &Vec<ActorConfig>, c: u32) -> (r: Vec<ActorId>)
    requires
        actors@.len() < u32::MAX,
    ensures
        raw_ids(r@) == members(actor_contexts(actors@), c as int),
{
    let ghost ctxs = actor_contexts(actors@);
    let mut r: Vec<ActorId> = Vec::new();
    let mut i: usize = 0;
    while i < actors.len()
        invariant
            ctxs == actor_contexts(actors@),
            actors@.len() < u32::MAX,
            0 <= i <= actors@.len(),
            raw_ids(r@) == members(ctxs.take(i as int), c as int),
        decreases actors@.len() - i,
    {
        proof {
            lemma_members_step(ctxs, i as int, c as int);
        }
        if actors[i].context.0 == c {
            r.push(ActorId((i + 1) as u32));
            assert(raw_ids(r@) =~= members(ctxs.take(i + 1), c as int));
        }
        i += 1;
    }
    assert(ctxs.take(i as int) =~= ctxs);
    r
}

/// Checks `config` and assigns the actors their ids, 1, 2, ... in configuration
/// order, and their contexts.
pub fn plan(config: &Config) -> (r: Result<Plan, ConfigError>)
    requires
        config.root.actors@.len() < u32::MAX,
        config.contexts@.len() < u32::MAX,
    ensures
        plan_result(*config, r),
{
    if config.root.children.len() != 0 || config.root.imported_scopes.len() != 0 {
        return Err(ConfigError::Namespaces);
    }
    let n = config.contexts.len();
    let mut i: usize = 0;
    while i < n
        invariant
            config.root.children@.len() == 0,
            config.root.imported_scopes@.len() == 0,
            n == config.contexts@.len(),
            n < u32::MAX,
            0 <= i <= n,
            forall|j: int| 0 <= j < i ==> #[trigger] config.contexts@[j].id.0 == j + 1,
        decreases n - i,
    {
        if config.contexts[i].id.0 != (i + 1) as u32 {
            assert(config.contexts@[i as int].id.0 != i + 1);
            assert(!contexts_dense(config.contexts@));
            return Err(ConfigError::ContextIds);
        }
        i += 1;
    }
    let actors = &config.root.actors;
    let ghost ctxs = actor_contexts(actors@);
    let mut k: usize = 0;
    while k < actors.len()
        invariant
            actors@ == config.root.actors@,
            ctxs == actor_contexts(actors@),
            n == config.contexts@.len(),
            contexts_dense(config.contexts@),
            config.root.children@.len() == 0,
            config.root.imported_scopes@.len() == 0,
            0 <= k <= actors@.len(),
            forall|j: int| 0 <= j < k ==> 1 <= #[trigger] ctxs[j] <= n,
        decreases actors@.len() - k,
    {
        let c = actors[k].context.0;
        if c < 1 || c as usize > n {
            assert(ctxs[k as int] == c);
            assert(!contexts_known(ctxs, n as int));
            return Err(ConfigError::UnknownContext);
        }
        k += 1;
    }
    let mut by_context: Vec<Vec<ActorId>> = Vec::with_capacity(n);
    let mut c: usize = 0;
    while c < n
        invariant
            actors@ == config.root.actors@,
            ctxs == actor_contexts(actors@),
            contexts_dense(config.contexts@),
            contexts_known(ctxs, n as int),
            config.root.children@.len() == 0,
            config.root.imported_scopes@.len() == 0,
            actors@.len() < u32::MAX,
            n == config.contexts@.len(),
            n < u32::MAX,
            0 <= c <= n,
            by_context@.len() == c,
            forall|j: int|
                0 <= j < c ==> raw_ids(#[trigger] by_context@[j]@) == members(ctxs, j + 1),
        decreases n - c,
    {
        let ids = context_members(actors, (c + 1) as u32);
        by_context.push(ids);
        c += 1;
    }
    Ok(Plan { by_context })
}

/// Facts about `members`: it lists, in increasing order, exactly the ids whose
/// actor runs in context `c`.
proof fn lemma_members(ctxs: Seq<u32>, c: int)
    requires
        ctxs.len() < u32::MAX,
    ensures
        forall|a: int|
            1 <= a <= ctxs.len() ==> (#[trigger] members(ctxs, c).contains(a as u32) <==> ctxs[a
                - 1] == c),
        forall|k: int|
            0 <= k < members(ctxs, c).len() ==> 1 <= #[trigger] members(ctxs, c)[k] <= ctxs.len(),
        forall|k: int, l: int|
            0 <= k < l < members(ctxs, c).len() ==> #[trigger] members(ctxs, c)[k]
                < #[trigger] members(ctxs, c)[l],
    decreases ctxs.len(),
{
    if ctxs.len() > 0 {
        let prev = ctxs.drop_last();
        lemma_members(prev, c);
        let m = members(ctxs, c);
        let mp = members(prev, c);
        assert forall|a: int| 1 <= a <= ctxs.len() implies (#[trigger] m.contains(a as u32) <==> ctxs[a
            - 1] == c) by {
            if a < ctxs.len() {
                assert(prev[a - 1] == ctxs[a - 1]);
                if m.contains(a as u32) {
                    let k = choose|k: int| 0 <= k < m.len() && m[k] == a as u32;
                    if k < mp.len() {
                        assert(mp[k] == m[k]);
                    } else {
                        assert(m[k] == ctxs.len() as u32);
                    }
                }
                if mp.contains(a as u32) {
                    let k = choose|k: int| 0 <= k < mp.len() && mp[k] == a as u32;
                    assert(m[k] == mp[k]);
                }
            } else {
                if ctxs.last() == c {
                    assert(m[m.len() - 1] == a as u32);
                } else {
                    if mp.contains(a as u32) {
                        let k = choose|k: int| 0 <= k < mp.len() && mp[k] == a as u32;
                        assert(mp[k] <= prev.len());
                    }
                }
            }
        }
    }
}

/// Dense ids: after planning, every actor id 1..=M stands in exactly one
/// context's list, once, and the lists hold no other id; the contexts are
/// exactly 1..=N.
pub proof fn lemma_dense_ids(config: Config, r: Result<Plan, ConfigError>)
    requires
        config.root.actors@.len() < u32::MAX,
        plan_result(config, r),
        r is Ok,
    ensures
        contexts_dense(config.contexts@),
        ({
            let plan = r->Ok_0;
            let m = config.root.actors@.len();
            let n = config.contexts@.len();
            &&& plan.by_context@.len() == n
            &&& forall|c: int, k: int|
                0 <= c < n && 0 <= k < plan.by_context@[c]@.len() ==> 1 <= (
                #[trigger] plan.by_context@[c]@[k]).0 <= m
            &&& forall|c: int, k: int, l: int|
                0 <= c < n && 0 <= k < l < plan.by_context@[c]@.len() ==> (
                #[trigger] plan.by_context@[c]@[k]).0 != (#[trigger] plan.by_context@[c]@[l]).0
            &&& forall|a: int|
                1 <= a <= m ==> {
                    &&& 1 <= (#[trigger] config.root.actors@[a - 1]).context.0 <= n
                    &&& raw_ids(
                        plan.by_context@[config.root.actors@[a - 1].context.0 - 1]@,
                    ).contains(a as u32)
                    &&& forall|d: int|
                        0 <= d < n && d != config.root.actors@[a - 1].context.0 - 1
                            ==> !raw_ids(plan.by_context@[d]@).contains(a as u32)
                }
        }),
{
    let plan = r->Ok_0;
    let ctxs = actor_contexts(config.root.actors@);
    let n = config.contexts@.len();
    assert forall|c: int| #![trigger plan.by_context@[c]] 0 <= c < n implies {
        &&& forall|k: int|
            0 <= k < plan.by_context@[c]@.len() ==> 1 <= (#[trigger] plan.by_context@[c]@[k]).0
                <= ctxs.len()
        &&& forall|k: int, l: int|
            0 <= k < l < plan.by_context@[c]@.len() ==> (#[trigger] plan.by_context@[c]@[k]).0
                != (#[trigger] plan.by_context@[c]@[l]).0
        &&& forall|a: int|
            1 <= a <= ctxs.len() ==> (#[trigger] raw_ids(plan.by_context@[c]@).contains(a as u32)
                <==> ctxs[a - 1] == c + 1)
    } by {
        lemma_members(ctxs, c + 1);
        let v = plan.by_context@[c]@;
        assert(raw_ids(v) == members(ctxs, c + 1));
        assert forall|k: int| 0 <= k < v.len() implies 1 <= (#[trigger] v[k]).0 <= ctxs.len() by {
            assert(raw_ids(v)[k] == v[k].0);
        }
        assert forall|k: int, l: int| 0 <= k < l < v.len() implies (#[trigger] v[k]).0 != (
        #[trigger] v[l]).0 by {
            assert(raw_ids(v)[k] == v[k].0);
            assert(raw_ids(v)[l] == v[l].0);
        }
    }
    assert forall|a: int| 1 <= a <= ctxs.len() implies {
        &&& 1 <= (#[trigger] config.root.actors@[a - 1]).context.0 <= n
        &&& raw_ids(plan.by_context@[config.root.actors@[a - 1].context.0 - 1]@).contains(a as u32)
        &&& forall|d: int|
            0 <= d < n && d != config.root.actors@[a - 1].context.0 - 1 ==> !raw_ids(
                plan.by_context@[d]@,
            ).contains(a as u32)
    } by {
        assert(ctxs[a - 1] == config.root.actors@[a - 1].context.0);
        assert(1 <= ctxs[a - 1] <= n);
    }
}

/// The position, among the links of context `own`, of the link to context
/// `peer`: a context has a link to every other context, in order of id, and none
/// to itself.
pub fn link_index(own: ContextId, peer: ContextId) -> (r: usize)
    requires
        own.0 >= 1,
        peer.0 >= 1,
        own.0 != peer.0,
    ensures
        r == peer.0 - 1 - (if peer.0 > own.0 { 1int } else { 0int }),
{
    if own.0 > peer.0 {
        (peer.0 - 1) as usize
    } else {
        (peer.0 - 2) as usize
    }
}

} // verus!
