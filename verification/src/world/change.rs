//! Adding components to entities and removing them.
use vstd::prelude::*;

use super::storage::lemma_more_archetypes;
use super::World;
use crate::bundle::{Bundle, DynamicBundle};
use crate::entities::{Entity, Location, NoSuchEntity};
use crate::errors::{ComponentError, MissingComponent};
use crate::history::{after, Step};
use crate::laws::{law_flush, law_insert, law_remove};
use crate::layout::{lemma_grown_dropped, lemma_grown_moved, moved};
use crate::maps::BundleKey;
use crate::model::WorldModel;
use crate::rows::{join_rows, take_fields};
use crate::types::{
    copy_types, find_type, increasing, lemma_increasing_unique, lemma_listed, lemma_row_map_eq, listed, row_map, TypeId,
};

verus! {

/// The first of the types that is not among `present`.
pub open spec fn first_missing(fields: Seq<TypeId>, present: Set<TypeId>) -> Option<TypeId>
    decreases fields.len(),
{
    if fields.len() == 0 {
        None
    } else if !present.contains(fields[0]) {
        Some(fields[0])
    } else {
        first_missing(fields.drop_first(), present)
    }
}

/// What removing components of the types `fields` from an entity yields.
pub open spec fn removal<V>(m: WorldModel<V>, e: Entity, fields: Seq<TypeId>) -> Result<Seq<V>, ComponentError> {
    if !m.contains(e) {
        Err(ComponentError::NoSuchEntity)
    } else {
        match first_missing(fields, m.components(e).dom()) {
            Some(ty) => Err(ComponentError::MissingComponent(MissingComponent { ty })),
            None => Ok(fields.map_values(|ty: TypeId| m.components(e)[ty])),
        }
    }
}

/// What is returned for the removed components, by value.
pub open spec fn outcome<V>(r: Result<Vec<V>, ComponentError>) -> Result<Seq<V>, ComponentError> {
    match r {
        Ok(values) => Ok(values@),
        Err(e) => Err(e),
    }
}

/// No type is missing if and only if all are present.
pub proof fn lemma_none_missing(fields: Seq<TypeId>, present: Set<TypeId>)
    ensures
        first_missing(fields, present) is None <==> fields.to_set().subset_of(present),
    decreases fields.len(),
{
    if fields.len() > 0 {
        lemma_none_missing(fields.drop_first(), present);
        let rest = fields.drop_first();
        assert forall|t: TypeId| fields.contains(t) <==> t == fields[0] || rest.contains(t) by {
            if rest.contains(t) {
                let k = choose|k: int| 0 <= k < rest.len() && rest[k] == t;
                assert(fields[k + 1] == t);
            }
            if fields.contains(t) && t != fields[0] {
                let k = choose|k: int| 0 <= k < fields.len() && fields[k] == t;
                assert(rest[k - 1] == t);
            }
        }
        if fields.to_set().subset_of(present) {
            assert(fields.to_set().contains(fields[0]));
            assert forall|t: TypeId| rest.to_set().contains(t) implies present.contains(t) by {
                assert(fields.to_set().contains(t));
            }
        }
        if present.contains(fields[0]) && rest.to_set().subset_of(present) {
            assert forall|t: TypeId| fields.to_set().contains(t) implies present.contains(t) by {
                if t != fields[0] {
                    assert(rest.to_set().contains(t));
                }
            }
        }
    }
}

/// A set of types that is listed once has the position where it is.
proof fn lemma_position(archetypes: Seq<Set<TypeId>>, a: int, types: Set<TypeId>)
    requires
        archetypes.no_duplicates(),
        0 <= a < archetypes.len(),
        archetypes[a] == types,
    ensures
        archetypes.index_of(types) == a,
{
    assert(archetypes.contains(types));
}

proof fn lemma_one_field(ty: TypeId)
    ensures
        seq![ty].to_set() == set![ty],
{
    assert(seq![ty][0] == ty);
    assert(seq![ty].to_set() =~= set![ty]);
}

fn find_missing(fields: &Vec<TypeId>, types: &Vec<TypeId>) -> (r: Option<TypeId>)
    requires
        increasing(types@),
    ensures
        r == first_missing(fields@, types@.to_set()),
{
    let mut i: usize = 0;
    assert(fields@.skip(0) =~= fields@);
    while i < fields.len()
        invariant
            i <= fields@.len(),
            increasing(types@),
            first_missing(fields@, types@.to_set()) == first_missing(fields@.skip(i as int), types@.to_set()),
        decreases fields@.len() - i,
    {
        assert(fields@.skip(i as int)[0] == fields@[i as int]);
        assert(fields@.skip(i as int).drop_first() =~= fields@.skip(i + 1));
        if find_type(types, fields[i]).is_none() {
            return Some(fields[i]);
        }
        i = i + 1;
    }
    None
}

impl<V> World<V> {
    /// Add `components` to `entity`.
    ///
    /// Computational cost is proportional to the number of components `entity` has. If an entity
    /// already has a component of a certain type, it is dropped and replaced.
    ///
    /// When inserting a single component, see `insert_one` for convenience.
    pub fn insert(&mut self, entity: Entity, components: DynamicBundle<V>) -> (r: Result<(), NoSuchEntity>)
        requires
            old(self).wf(),
            old(self).model().contains(entity) ==> old(self).model().can_hold(
                old(self).model().components(entity).dom().union(components@.dom()),
            ),
        ensures
            final(self).wf(),
            final(self).model() == after(old(self).model(), Step::Insert { entity, components: components@ }),
            r is Ok <==> old(self).model().contains(entity),
            r is Ok ==> final(self).model().live.contains_key(entity) && forall|ty: TypeId|
                #![trigger final(self).model().live[entity].contains_key(ty)]
                {
                    let now = final(self).model().live[entity];
                    &&& now.contains_key(ty) <==> old(self).model().components(entity).contains_key(ty)
                        || components@.contains_key(ty)
                    &&& components@.contains_key(ty) ==> now[ty] == components@[ty]
                    &&& now.contains_key(ty) && !components@.contains_key(ty) ==> now[ty] == old(self).model().components(entity)[ty]
                },
            forall|x: Entity| #[trigger]
                old(self).model().contains(x) && x != entity ==> final(self).model().live.contains_key(x) && final(self).model().live[x]
                    == old(self).model().components(x),
            r is Ok ==> final(self).model() == old(self).model().flushed().inserted(entity, components@),
            r is Err ==> final(self).model() == old(self).model().flushed(),
            final(self).model().len() == old(self).model().len() + old(self).model().reserved.len(),
            final(self).layout() == (if r is Ok {
                moved(
                    old(self).flushed_layout(),
                    final(self).model().archetypes,
                    final(self).model().components(entity).dom(),
                    entity.id,
                )
            } else {
                old(self).flushed_layout()
            }),
            final(self).records() == (if r is Ok {
                old(self).records().with_insert(
                    final(self).model().archetypes.index_of(old(self).model().components(entity).dom()) as u32,
                    components.key_view(),
                    listed(components@.dom()),
                    listed(old(self).model().components(entity).dom().difference(components@.dom())),
                    final(self).model().archetypes.index_of(final(self).model().components(entity).dom()) as u32,
                )
            } else {
                old(self).records()
            }),
    {
        proof {
            self.lemma_wf();
            law_flush(self.model());
            if self.model().contains(entity) {
                law_insert(self.model(), entity, components@);
            }
        }
        self.flush_inner();
        proof {
            self.lemma_wf();
        }
        match self.find(entity) {
            Ok(loc) => {
                let ghost flushed = *self;
                let nothing: Vec<TypeId> = Vec::new();
                proof {
                    let m = flushed.model().live[entity];
                    assert(nothing@.to_set() =~= Set::<TypeId>::empty());
                    assert(m.remove_keys(nothing@.to_set()) =~= m);
                    assert(m.dom().difference(nothing@.to_set()) =~= m.dom());
                    assert(m.union_prefer_right(components@).dom() =~= m.dom().union(components@.dom()));
                    assert(self.archetypes.type_sets()[loc.archetype as int] == m.dom());
                }
                let _ = self.insert_inner(entity, components, loc.archetype, loc, &nothing);
                proof {
                    let m = flushed.model().live[entity];
                    self.lemma_wf();
                    lemma_position(self.model().archetypes, loc.archetype as int, m.dom());
                    assert(old(self).model().components(entity) =~= m);
                }
                Ok(())
            },
            Err(e) => Err(e),
        }
    }

    /// The implementation backing `insert` exposed so that it can also be used by `exchange`.
    ///
    /// Note that `graph_origin` is always equal to `loc.archetype` during insertion. Only for
    /// exchange, `graph_origin` identifies the intermediate archetype which would be reached after
    /// removal of `taken` and before insertion even though the actual component data still resides
    /// in `loc.archetype`.
    ///
    /// Returns the components that are removed, in the order of `taken`.
    fn insert_inner(
        &mut self,
        entity: Entity,
        components: DynamicBundle<V>,
        graph_origin: u32,
        loc: Location,
        taken: &Vec<TypeId>,
    ) -> (r: Vec<V>)
        requires
            old(self).wf(),
            old(self).model().live.contains_key(entity),
            loc == old(self).entities.metas()[entity.id as int].location,
            taken@.no_duplicates(),
            taken@.to_set().subset_of(old(self).model().live[entity].dom()),
            graph_origin < old(self).archetypes.archs().len(),
            old(self).archetypes.type_sets()[graph_origin as int] == old(self).model().live[entity].dom().difference(
                taken@.to_set(),
            ),
            old(self).model().can_hold(
                old(self).model().live[entity].remove_keys(taken@.to_set()).union_prefer_right(components@).dom(),
            ),
        ensures
            final(self).wf(),
            final(self).model() == old(self).model().changed(
                entity,
                old(self).model().live[entity].remove_keys(taken@.to_set()).union_prefer_right(components@),
            ),
            r@.len() == taken@.len(),
            forall|i: int| 0 <= i < taken@.len() ==> r@[i] == old(self).model().live[entity][#[trigger] taken@[i]],
            final(self).layout() == moved(
                old(self).layout(),
                final(self).model().archetypes,
                final(self).model().live[entity].dom(),
                entity.id,
            ),
            final(self).records() == old(self).records().with_insert(
                graph_origin,
                components.key_view(),
                listed(components@.dom()),
                listed(old(self).model().live[entity].dom().difference(taken@.to_set()).difference(components@.dom())),
                final(self).model().archetypes.index_of(final(self).model().live[entity].dom()) as u32,
            ),
    {
        let ghost before = *self;
        let ghost m = self.model().live[entity];
        let ghost s = taken@.to_set();
        let ghost goal = m.remove_keys(s).union_prefer_right(components@);
        proof {
            use_type_invariant(&components);
            assert(components@.dom() =~= components.types_view().to_set());
            assert(goal.dom() =~= m.dom().difference(s).union(components@.dom()));
        }
        let target = self.graph.insert_target(
            &mut self.archetypes,
            graph_origin,
            components.key(),
            components.types(),
        );
        let ghost here = *self;
        let ghost archs = self.archetypes.archs();
        proof {
            lemma_more_archetypes(self.entities, before.archetypes.archs(), archs);
            assert(archs[graph_origin as int] == before.archetypes.archs()[graph_origin as int]);
            assert(archs[loc.archetype as int] == before.archetypes.archs()[loc.archetype as int]);
            archs[loc.archetype as int].lemma_shape();
            assert(m.dom() =~= archs[loc.archetype as int].types_view().to_set());
            assert(archs[target.index_view() as int].types_view().to_set() == goal.dom());
            assert(here.model() == before.model().with_archetype(goal.dom()));
            lemma_listed(components.types_view());
            lemma_listed(target.retained_view());
            here.lemma_archetype_index(Set::empty(), target.index_view() as int, goal.dom());
            here.lemma_grown_layout(&before);
            here.lemma_place(Set::empty(), entity.id);
            lemma_grown_dropped(before.layout(), here.model().archetypes.len(), entity.id);
        }
        if target.index() == loc.archetype {
            // Update components in the current archetype
            let types = copy_types(components.types());
            let ghost values = components.values_view();
            let ghost t = types@.to_set();
            proof {
                assert forall|x: TypeId| s.contains(x) implies t.contains(x) by {
                    assert(m.dom().contains(x));
                }
                assert(m.union_prefer_right(components@) =~= goal);
            }
            let replaced = self.overwrite(entity, &types, components.into_values());
            let (r, _, _) = take_fields(&types, replaced, taken);
            proof {
                assert forall|i: int| 0 <= i < taken@.len() implies r@[i] == m[#[trigger] taken@[i]] by {
                    let x = taken@[i];
                    assert(s.contains(x));
                    let k = types@.index_of(x);
                    assert(types@.contains(x));
                    assert(types@[k] == x);
                }
            }
            return r;
        }
        let source_types = copy_types(self.archetypes.all()[loc.archetype as usize].types());
        // Take the components out of the old archetype
        let row = self.detach(entity.id, Ghost(Set::empty()));
        let ghost limbo = Set::<u32>::empty().insert(entity.id);
        let ghost out = *self;
        let ghost row0 = row@;
        proof {
            self.lemma_same_but_rows(&here, Set::empty());
            assert(out.entities.handle(entity.id) == entity);
        }
        // Move the components we're keeping
        let (kept, rest_types, rest) = take_fields(&source_types, row, target.retained());
        let ghost rest0 = rest@;
        proof {
            let retained = target.retained_view();
            assert forall|x: TypeId| s.contains(x) implies rest_types@.to_set().contains(x) by {
                assert(m.dom().contains(x));
                assert(!retained.to_set().contains(x));
            }
            assert(m.restrict(retained.to_set()).dom() =~= retained.to_set());
            assert forall|i: int| 0 <= i < retained.len() implies m.restrict(retained.to_set())[#[trigger] retained[i]]
                == kept@[i] by {
                assert(retained.to_set().contains(retained[i]));
            }
            lemma_row_map_eq(retained, kept@, m.restrict(retained.to_set()));
        }
        let (r, _, _) = take_fields(&rest_types, rest, taken);
        proof {
            assert forall|i: int| 0 <= i < taken@.len() implies r@[i] == m[#[trigger] taken@[i]] by {
                assert(s.contains(taken@[i]));
                assert(!target.retained_view().to_set().contains(taken@[i]));
            }
        }
        // Join them with the new components
        let types = copy_types(components.types());
        let ghost values = components.values_view();
        proof {
            assert(target.retained_view().to_set().disjoint(types@.to_set()));
        }
        let (new_types, new_row) = join_rows(target.retained(), kept, &types, components.into_values());
        proof {
            assert(new_types@.to_set() =~= goal.dom());
            archs[target.index_view() as int].lemma_shape();
            lemma_increasing_unique(new_types@, archs[target.index_view() as int].types_view());
            assert(row_map(new_types@, new_row@) =~= goal);
            assert(out.archetypes.type_lists()[target.index_view() as int] == here.archetypes.type_lists()[target.index_view() as int]);
            assert(out.archetypes.archs()[target.index_view() as int].types_view() == archs[target.index_view() as int].types_view());
        }
        self.attach(entity.id, target.index(), new_row, Ghost(limbo));
        proof {
            assert(limbo.remove(entity.id) =~= Set::<u32>::empty());
            self.lemma_same_but_rows(&out, limbo);
            assert(self.model().live =~= before.model().live.insert(entity, goal));
        }
        r
    }

    /// Add `component` to `entity`; `key` is that of the bundle type of this component alone.
    ///
    /// See `insert`.
    pub fn insert_one(
        &mut self,
        entity: Entity,
        ty: TypeId,
        key: BundleKey,
        component: V,
    ) -> (r: Result<(), NoSuchEntity>)
        requires
            old(self).wf(),
            old(self).model().contains(entity) ==> old(self).model().can_hold(
                old(self).model().components(entity).dom().insert(ty),
            ),
        ensures
            final(self).wf(),
            final(self).model() == after(old(self).model(), Step::Insert { entity, components: map![ty => component] }),
            r is Ok <==> old(self).model().contains(entity),
            r is Ok ==> final(self).model() == old(self).model().flushed().changed(
                entity,
                old(self).model().components(entity).insert(ty, component),
            ),
            r is Err ==> final(self).model() == old(self).model().flushed(),
            final(self).model().len() == old(self).model().len() + old(self).model().reserved.len(),
            final(self).layout() == (if r is Ok {
                moved(
                    old(self).flushed_layout(),
                    final(self).model().archetypes,
                    final(self).model().components(entity).dom(),
                    entity.id,
                )
            } else {
                old(self).flushed_layout()
            }),
            final(self).records() == (if r is Ok {
                old(self).records().with_insert(
                    final(self).model().archetypes.index_of(old(self).model().components(entity).dom()) as u32,
                    Some(key),
                    listed(set![ty]),
                    listed(old(self).model().components(entity).dom().remove(ty)),
                    final(self).model().archetypes.index_of(final(self).model().components(entity).dom()) as u32,
                )
            } else {
                old(self).records()
            }),
    {
        let bundle = DynamicBundle::one(Some(key), ty, component);
        proof {
            let m = old(self).model().components(entity);
            assert(m.dom().union(bundle@.dom()) =~= m.dom().insert(ty));
            assert(m.union_prefer_right(bundle@) =~= m.insert(ty, component));
            assert(bundle@.dom() =~= set![ty]);
            assert(m.dom().difference(bundle@.dom()) =~= m.dom().remove(ty));
            if self.model().contains(entity) {
                assert(self.model().flushed().live[entity] =~= m);
            }
        }
        self.insert(entity, bundle)
    }

    /// Remove components from `entity`.
    ///
    /// Computational cost is proportional to the number of components `entity` has. The entity
    /// itself is not removed, even if no components remain; use `despawn` for that. If any component
    /// of `bundle` is not present in `entity`, no components are removed and an error is returned.
    ///
    /// When removing a single component, see `remove_one` for convenience.
    ///
    /// Returns the components, in the order of the bundle's types.
    pub fn remove(&mut self, entity: Entity, bundle: &Bundle) -> (r: Result<Vec<V>, ComponentError>)
        requires
            old(self).wf(),
            removal(old(self).model(), entity, bundle.fields()) is Ok ==> old(self).model().can_hold(
                old(self).model().components(entity).dom().difference(bundle.fields().to_set()),
            ),
        ensures
            final(self).wf(),
            final(self).model() == after(old(self).model(), Step::Remove { entity, fields: bundle.fields() }),
            final(self).model().len() == old(self).model().len() + old(self).model().reserved.len(),
            outcome(r) == removal(old(self).model(), entity, bundle.fields()),
            r is Ok ==> final(self).model().live.contains_key(entity) && forall|ty: TypeId|
                #![trigger final(self).model().live[entity].contains_key(ty)]
                {
                    let now = final(self).model().live[entity];
                    &&& now.contains_key(ty) <==> old(self).model().components(entity).contains_key(ty)
                        && !bundle.fields().contains(ty)
                    &&& now.contains_key(ty) ==> now[ty] == old(self).model().components(entity)[ty]
                },
            forall|x: Entity| #[trigger]
                old(self).model().contains(x) && x != entity ==> final(self).model().live.contains_key(x) && final(self).model().live[x]
                    == old(self).model().components(x),
            final(self).layout() == (if r is Ok {
                moved(
                    old(self).flushed_layout(),
                    final(self).model().archetypes,
                    final(self).model().components(entity).dom(),
                    entity.id,
                )
            } else {
                old(self).flushed_layout()
            }),
            final(self).records() == (if r is Ok {
                old(self).records().with_remove(
                    final(self).model().archetypes.index_of(old(self).model().components(entity).dom()) as u32,
                    bundle.key_view(),
                    bundle.fields(),
                    final(self).model().archetypes.index_of(final(self).model().components(entity).dom()) as u32,
                )
            } else {
                old(self).records()
            }),
            match r {
                Ok(values) => {
                    &&& old(self).model().contains(entity)
                    &&& first_missing(bundle.fields(), old(self).model().components(entity).dom()) is None
                    &&& values@.len() == bundle.fields().len()
                    &&& forall|i: int|
                        0 <= i < values@.len() ==> values@[i] == old(self).model().components(entity)[#[trigger] bundle.fields()[i]]
                    &&& final(self).model() == old(self).model().flushed().removed(entity, bundle.fields().to_set())
                },
                Err(ComponentError::NoSuchEntity) => {
                    &&& !old(self).model().contains(entity)
                    &&& final(self).model() == old(self).model().flushed()
                },
                Err(ComponentError::MissingComponent(x)) => {
                    &&& old(self).model().contains(entity)
                    &&& first_missing(bundle.fields(), old(self).model().components(entity).dom()) == Some(x.ty)
                    &&& final(self).model() == old(self).model().flushed()
                },
            },
    {
        let ghost start = *self;
        proof {
            self.lemma_wf();
            law_flush(self.model());
            if self.model().contains(entity) {
                law_remove(self.model(), entity, bundle.fields().to_set());
            }
        }
        self.flush_inner();
        proof {
            self.lemma_wf();
        }
        // Gather current metadata
        let loc: Location = match self.find(entity) {
            Ok(loc) => loc,
            Err(e) => {
                return Err(ComponentError::from(e));
            },
        };
        let ghost before = *self;
        let ghost m = self.model().live[entity];
        let ghost s = bundle.fields().to_set();
        proof {
            use_type_invariant(bundle);
            self.archetypes.archs()[loc.archetype as int].lemma_shape();
            lemma_none_missing(bundle.fields(), m.dom());
            assert(start.model().components(entity) =~= m);
        }
        let source_types = copy_types(self.archetypes.all()[loc.archetype as usize].types());
        // Bail out if a component is missing
        if let Some(ty) = find_missing(bundle.types(), &source_types) {
            return Err(ComponentError::from(MissingComponent { ty }));
        }
        // Find the target archetype
        let target: u32 = self.graph.remove_target(&mut self.archetypes, loc.archetype, bundle);
        let ghost here = *self;
        let ghost archs = self.archetypes.archs();
        proof {
            lemma_more_archetypes(self.entities, before.archetypes.archs(), archs);
            assert(archs[loc.archetype as int] == before.archetypes.archs()[loc.archetype as int]);
            assert(before.archetypes.type_sets()[loc.archetype as int] == m.dom());
            assert(m.remove_keys(s).dom() =~= m.dom().difference(s));
            assert(here.model() == before.model().with_archetype(m.remove_keys(s).dom()));
            here.lemma_archetype_index(Set::empty(), target as int, m.remove_keys(s).dom());
            here.lemma_grown_layout(&before);
            here.lemma_place(Set::empty(), entity.id);
            lemma_grown_dropped(before.layout(), here.model().archetypes.len(), entity.id);
        }
        // Store components to the target archetype and update metadata
        if loc.archetype != target {
            // If we actually removed any components, the entity needs to be moved into a new
            // archetype
            let row = self.detach(entity.id, Ghost(Set::empty()));
            let ghost limbo = Set::<u32>::empty().insert(entity.id);
            let ghost out = *self;
            proof {
                self.lemma_same_but_rows(&here, Set::empty());
            }
            let (values, rest_types, rest) = take_fields(&source_types, row, bundle.types());
            proof {
                assert(archs[target as int].types_view().to_set() == rest_types@.to_set());
                archs[target as int].lemma_shape();
                lemma_increasing_unique(rest_types@, archs[target as int].types_view());
                assert(out.archetypes.type_lists()[target as int] == here.archetypes.type_lists()[target as int]);
                assert(out.archetypes.archs()[target as int].types_view() == archs[target as int].types_view());
            }
            self.attach(entity.id, target, rest, Ghost(limbo));
            proof {
                assert(limbo.remove(entity.id) =~= Set::<u32>::empty());
                self.lemma_same_but_rows(&out, limbo);
                assert(self.model().live =~= before.model().live.insert(entity, m.remove_keys(s)));
                self.lemma_wf();
                lemma_position(self.model().archetypes, loc.archetype as int, m.dom());
                assert(values@ =~= bundle.fields().map_values(|ty: TypeId| m[ty]));
            }
            Ok(values)
        } else {
            proof {
                assert(m.dom().difference(s) == m.dom());
                assert(bundle.fields().len() == 0) by {
                    if bundle.fields().len() > 0 {
                        let t = bundle.fields()[0];
                        assert(s.contains(t));
                        assert(m.dom().contains(t));
                        assert(m.dom().difference(s).contains(t));
                    }
                }
                assert(m.remove_keys(s) =~= m);
                assert(self.model().live =~= before.model().live.insert(entity, m));
                self.lemma_wf();
                lemma_position(self.model().archetypes, loc.archetype as int, m.dom());
                assert(Seq::<V>::empty() =~= bundle.fields().map_values(|ty: TypeId| m[ty]));
            }
            Ok(Vec::new())
        }
    }

    /// Remove the component of type `ty` from `entity`; `key` is that of the bundle type of this
    /// component alone.
    ///
    /// See `remove`.
    pub fn remove_one(&mut self, entity: Entity, ty: TypeId, key: BundleKey) -> (r: Result<V, ComponentError>)
        requires
            old(self).wf(),
            removal(old(self).model(), entity, seq![ty]) is Ok ==> old(self).model().can_hold(
                old(self).model().components(entity).dom().remove(ty),
            ),
        ensures
            final(self).wf(),
            final(self).model() == after(old(self).model(), Step::Remove { entity, fields: seq![ty] }),
            final(self).model().len() == old(self).model().len() + old(self).model().reserved.len(),
            final(self).layout() == (if r is Ok {
                moved(
                    old(self).flushed_layout(),
                    final(self).model().archetypes,
                    final(self).model().components(entity).dom(),
                    entity.id,
                )
            } else {
                old(self).flushed_layout()
            }),
            final(self).records() == (if r is Ok {
                old(self).records().with_remove(
                    final(self).model().archetypes.index_of(old(self).model().components(entity).dom()) as u32,
                    Some(key),
                    seq![ty],
                    final(self).model().archetypes.index_of(final(self).model().components(entity).dom()) as u32,
                )
            } else {
                old(self).records()
            }),
            match r {
                Ok(value) => {
                    &&& old(self).model().contains(entity)
                    &&& old(self).model().components(entity).contains_key(ty)
                    &&& value == old(self).model().components(entity)[ty]
                    &&& final(self).model() == old(self).model().flushed().changed(
                        entity,
                        old(self).model().components(entity).remove(ty),
                    )
                },
                Err(ComponentError::NoSuchEntity) => {
                    &&& !old(self).model().contains(entity)
                    &&& final(self).model() == old(self).model().flushed()
                },
                Err(ComponentError::MissingComponent(x)) => {
                    &&& old(self).model().contains(entity)
                    &&& !old(self).model().components(entity).contains_key(ty)
                    &&& x.ty == ty
                    &&& final(self).model() == old(self).model().flushed()
                },
            },
    {
        let ghost m = self.model().components(entity);
        let bundle = Bundle::one(Some(key), ty);
        proof {
            lemma_one_field(ty);
            assert(bundle.fields() == seq![ty]);
            assert(m.dom().difference(bundle.fields().to_set()) =~= m.dom().remove(ty));
            assert(m.remove_keys(bundle.fields().to_set()) =~= m.remove(ty));
            lemma_none_missing(bundle.fields(), m.dom());
            reveal_with_fuel(first_missing, 2);
            if self.model().contains(entity) {
                assert(self.model().flushed().live[entity] =~= m);
            }
        }
        match self.remove(entity, &bundle) {
            Ok(values) => {
                let mut values = values;
                assert(values@[0] == m[bundle.fields()[0]]);
                Ok(values.swap_remove(0))
            },
            Err(e) => Err(e),
        }
    }

    /// Remove the components of `bundle` from `entity` and then add `components`.
    ///
    /// This has the same effect as calling `remove` and then `insert`, but is more efficient as the
    /// intermediate archetype after removal but before insertion is skipped.
    ///
    /// Returns the removed components, in the order of the bundle's types.
    pub fn exchange(
        &mut self,
        entity: Entity,
        bundle: &Bundle,
        components: DynamicBundle<V>,
    ) -> (r: Result<Vec<V>, ComponentError>)
        requires
            old(self).wf(),
            removal(old(self).model(), entity, bundle.fields()) is Ok ==> {
                let kept = old(self).model().components(entity).dom().difference(bundle.fields().to_set());
                &&& old(self).model().can_hold(kept)
                &&& old(self).model().with_archetype(kept).can_hold(kept.union(components@.dom()))
            },
        ensures
            final(self).wf(),
            final(self).model() == after(old(self).model(), Step::Exchange { entity, fields: bundle.fields(), components: components@ }),
            final(self).model().len() == old(self).model().len() + old(self).model().reserved.len(),
            outcome(r) == removal(old(self).model(), entity, bundle.fields()),
            r is Ok ==> final(self).model().live.contains_key(entity) && forall|ty: TypeId|
                #![trigger final(self).model().live[entity].contains_key(ty)]
                {
                    let was = old(self).model().components(entity);
                    let now = final(self).model().live[entity];
                    &&& now.contains_key(ty) <==> components@.contains_key(ty) || was.contains_key(ty) && !bundle.fields().contains(ty)
                    &&& components@.contains_key(ty) ==> now[ty] == components@[ty]
                    &&& now.contains_key(ty) && !components@.contains_key(ty) ==> now[ty] == was[ty]
                },
            forall|x: Entity| #[trigger]
                old(self).model().contains(x) && x != entity ==> final(self).model().live.contains_key(x) && final(self).model().live[x]
                    == old(self).model().components(x),
            final(self).layout() == (if r is Ok {
                moved(
                    old(self).flushed_layout(),
                    final(self).model().archetypes,
                    final(self).model().components(entity).dom(),
                    entity.id,
                )
            } else {
                old(self).flushed_layout()
            }),
            final(self).records() == (if r is Ok {
                let kept = old(self).model().components(entity).dom().difference(bundle.fields().to_set());
                let between = final(self).model().archetypes.index_of(kept) as u32;
                old(self).records().with_remove(
                    final(self).model().archetypes.index_of(old(self).model().components(entity).dom()) as u32,
                    bundle.key_view(),
                    bundle.fields(),
                    between,
                ).with_insert(
                    between,
                    components.key_view(),
                    listed(components@.dom()),
                    listed(kept.difference(components@.dom())),
                    final(self).model().archetypes.index_of(final(self).model().components(entity).dom()) as u32,
                )
            } else {
                old(self).records()
            }),
            match r {
                Ok(values) => {
                    &&& old(self).model().contains(entity)
                    &&& first_missing(bundle.fields(), old(self).model().components(entity).dom()) is None
                    &&& values@.len() == bundle.fields().len()
                    &&& forall|i: int|
                        0 <= i < values@.len() ==> values@[i] == old(self).model().components(entity)[#[trigger] bundle.fields()[i]]
                    &&& final(self).model() == old(self).model().flushed().removed(entity, bundle.fields().to_set()).inserted(
                        entity,
                        components@,
                    )
                },
                Err(ComponentError::NoSuchEntity) => {
                    &&& !old(self).model().contains(entity)
                    &&& final(self).model() == old(self).model().flushed()
                },
                Err(ComponentError::MissingComponent(x)) => {
                    &&& old(self).model().contains(entity)
                    &&& first_missing(bundle.fields(), old(self).model().components(entity).dom()) == Some(x.ty)
                    &&& final(self).model() == old(self).model().flushed()
                },
            },
    {
        let ghost start = *self;
        proof {
            self.lemma_wf();
            law_flush(self.model());
            if self.model().contains(entity) {
                law_remove(self.model(), entity, bundle.fields().to_set());
            }
        }
        self.flush_inner();
        proof {
            self.lemma_wf();
        }
        // Gather current metadata
        let loc: Location = match self.find(entity) {
            Ok(loc) => loc,
            Err(e) => {
                return Err(ComponentError::from(e));
            },
        };
        let ghost before = *self;
        let ghost m = self.model().live[entity];
        let ghost s = bundle.fields().to_set();
        proof {
            use_type_invariant(bundle);
            self.archetypes.archs()[loc.archetype as int].lemma_shape();
            lemma_none_missing(bundle.fields(), m.dom());
            assert(start.model().components(entity) =~= m);
            assert(m.remove_keys(s).dom() =~= m.dom().difference(s));
        }
        // Bail out if a component is missing
        if let Some(ty) = find_missing(
            bundle.types(),
            self.archetypes.all()[loc.archetype as usize].types(),
        ) {
            return Err(ComponentError::from(MissingComponent { ty }));
        }
        // Find the intermediate archetype
        let intermediate: u32 = self.graph.remove_target(&mut self.archetypes, loc.archetype, bundle);
        let ghost here = *self;
        proof {
            lemma_more_archetypes(self.entities, before.archetypes.archs(), self.archetypes.archs());
            assert(before.archetypes.type_sets()[loc.archetype as int] == m.dom());
            assert(here.model() == before.model().with_archetype(m.remove_keys(s).dom()));
            assert(m.remove_keys(s).union_prefer_right(components@).dom() =~= m.dom().difference(s).union(
                components@.dom(),
            ));
        }
        let values = self.insert_inner(entity, components, intermediate, loc, bundle.types());
        proof {
            self.lemma_wf();
            lemma_position(self.model().archetypes, loc.archetype as int, m.dom());
            lemma_position(self.model().archetypes, intermediate as int, m.dom().difference(s));
            here.lemma_grown_layout(&before);
            lemma_grown_moved(
                before.layout(),
                here.model().archetypes.len(),
                self.model().archetypes,
                self.model().live[entity].dom(),
                entity.id,
            );
            assert(before.model().removed(entity, s).live[entity] == m.remove_keys(s));
            assert(values@ =~= bundle.fields().map_values(|ty: TypeId| m[ty]));
            assert(self.model().live =~= before.model().removed(entity, s).inserted(entity, components@).live);
        }
        Ok(values)
    }

    /// Remove the component of type `ty` from `entity` and then add `component`, of type `new_ty`;
    /// `key` and `new_key` are those of the bundle types of either component alone.
    ///
    /// See `exchange`.
    pub fn exchange_one(
        &mut self,
        entity: Entity,
        ty: TypeId,
        key: BundleKey,
        new_ty: TypeId,
        new_key: BundleKey,
        component: V,
    ) -> (r: Result<V, ComponentError>)
        requires
            old(self).wf(),
            removal(old(self).model(), entity, seq![ty]) is Ok ==> {
                let kept = old(self).model().components(entity).dom().remove(ty);
                &&& old(self).model().can_hold(kept)
                &&& old(self).model().with_archetype(kept).can_hold(kept.insert(new_ty))
            },
        ensures
            final(self).wf(),
            final(self).model() == after(old(self).model(), Step::Exchange { entity, fields: seq![ty], components: map![new_ty => component] }),
            final(self).model().len() == old(self).model().len() + old(self).model().reserved.len(),
            final(self).layout() == (if r is Ok {
                moved(
                    old(self).flushed_layout(),
                    final(self).model().archetypes,
                    final(self).model().components(entity).dom(),
                    entity.id,
                )
            } else {
                old(self).flushed_layout()
            }),
            final(self).records() == (if r is Ok {
                let kept = old(self).model().components(entity).dom().remove(ty);
                let between = final(self).model().archetypes.index_of(kept) as u32;
                old(self).records().with_remove(
                    final(self).model().archetypes.index_of(old(self).model().components(entity).dom()) as u32,
                    Some(key),
                    seq![ty],
                    between,
                ).with_insert(
                    between,
                    Some(new_key),
                    listed(set![new_ty]),
                    listed(kept.remove(new_ty)),
                    final(self).model().archetypes.index_of(final(self).model().components(entity).dom()) as u32,
                )
            } else {
                old(self).records()
            }),
            match r {
                Ok(value) => {
                    &&& old(self).model().contains(entity)
                    &&& old(self).model().components(entity).contains_key(ty)
                    &&& value == old(self).model().components(entity)[ty]
                    &&& final(self).model() == old(self).model().flushed().changed(
                        entity,
                        old(self).model().components(entity).remove(ty),
                    ).changed(entity, old(self).model().components(entity).remove(ty).insert(new_ty, component))
                },
                Err(ComponentError::NoSuchEntity) => {
                    &&& !old(self).model().contains(entity)
                    &&& final(self).model() == old(self).model().flushed()
                },
                Err(ComponentError::MissingComponent(x)) => {
                    &&& old(self).model().contains(entity)
                    &&& !old(self).model().components(entity).contains_key(ty)
                    &&& x.ty == ty
                    &&& final(self).model() == old(self).model().flushed()
                },
            },
    {
        let ghost m = self.model().components(entity);
        let bundle = Bundle::one(Some(key), ty);
        let components = DynamicBundle::one(Some(new_key), new_ty, component);
        proof {
            lemma_one_field(ty);
            assert(m.dom().difference(bundle.fields().to_set()) =~= m.dom().remove(ty));
            assert(m.dom().remove(ty).union(components@.dom()) =~= m.dom().remove(ty).insert(new_ty));
            assert(components@.dom() =~= set![new_ty]);
            assert(m.dom().remove(ty).difference(components@.dom()) =~= m.dom().remove(ty).remove(new_ty));
            assert(m.remove_keys(bundle.fields().to_set()) =~= m.remove(ty));
            assert(m.remove(ty).union_prefer_right(components@) =~= m.remove(ty).insert(new_ty, component));
            lemma_none_missing(bundle.fields(), m.dom());
            reveal_with_fuel(first_missing, 2);
            if self.model().contains(entity) {
                assert(self.model().flushed().live[entity] =~= m);
            }
        }
        match self.exchange(entity, &bundle, components) {
            Ok(values) => {
                let mut values = values;
                assert(values@[0] == m[bundle.fields()[0]]);
                Ok(values.swap_remove(0))
            },
            Err(e) => Err(e),
        }
    }
}

} // verus!
