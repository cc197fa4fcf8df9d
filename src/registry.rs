use vstd::prelude::*;

use crate::arena::Layout;
use crate::lookup::ActorType;

verus! {

/// A type with a name that is unique among the actor types of the process.
pub trait UniquelyNamed {
    fn name() -> &'static str;
}

/// Why a registration or a lookup by name fails.
#[derive(Clone, Copy, Debug, PartialEq, Eq, Structural)]
pub enum RegistryError {
    /// An actor type is registered under a name that another one has.
    DuplicateName,
    /// Every type number is taken.
    TooManyTypes,
    /// The configuration names an actor type that nobody registered; the index
    /// is the position of the first such name.
    UnknownName(usize),
}

/// The registered actor types: for each, its unique name and its layout. A
/// type's number is its position, in order of registration.
pub struct Registry {
    names: Vec<String>,
    layouts: Vec<Layout>,
}

/// The names of `v`, as sequences of characters.
pub open spec fn name_seqs(v: Seq<String>) -> Seq<Seq<char>> {
    v.map_values(|s: String| s@)
}

impl Registry {
    pub closed spec fn spec_names(&self) -> Seq<Seq<char>> {
        name_seqs(self.names@)
    }

    pub closed spec fn spec_layouts(&self) -> Seq<Layout> {
        self.layouts@
    }

    /// True when the names are distinct and each type has a layout.
    pub open spec fn wf(&self) -> bool {
        &&& self.spec_names().no_duplicates()
        &&& self.spec_names().len() == self.spec_layouts().len()
        &&& self.spec_names().len() <= u32::MAX + 1
    }

    /// A registry without types.
    pub fn new() -> (r: Self)
        ensures
            r.wf(),
            r.spec_names() == Seq::<Seq<char>>::empty(),
    {
        let r = Registry { names: Vec::new(), layouts: Vec::new() };
        assert(r.spec_names() =~= Seq::<Seq<char>>::empty());
        r
    }

    pub fn len(&self) -> (r: usize)
        requires
            self.wf(),
        ensures
            r == self.spec_names().len(),
    {
        self.names.len()
    }

    /// The type registered under `name`, if any.
    pub fn by_name(&self, name: &String) -> (r: Option<ActorType>)
        requires
            self.wf(),
        ensures
            r matches Some(t) ==> t.0 < self.spec_names().len() && self.spec_names()[t.0 as int]
                == name@,
            r is None ==> !self.spec_names().contains(name@),
    {
        let mut i: usize = 0;
        while i < self.names.len()
            invariant
                self.wf(),
                0 <= i <= self.spec_names().len(),
                forall|j: int| 0 <= j < i ==> #[trigger] self.spec_names()[j] != name@,
            decreases self.spec_names().len() - i,
        {
            if self.names[i] == *name {
                return Some(ActorType(i as u32));
            }
            i += 1;
        }
        None
    }

    /// Registers an actor type of layout `layout` under `name`, as the next type
    /// number; fails when the name is taken or no type number is left.
    pub fn register_actor(&mut self, name: String, layout: Layout) -> (r: Result<
        ActorType,
        RegistryError,
    >)
        requires
            old(self).wf(),
        ensures
            final(self).wf(),
            old(self).spec_names().contains(name@) ==> r == Err::<ActorType, RegistryError>(
                RegistryError::DuplicateName,
            ) && final(self).spec_names() == old(self).spec_names(),
            r matches Ok(t) ==> t.0 == old(self).spec_names().len(),
            r is Ok ==> final(self).spec_names() == old(self).spec_names().push(name@),
            r is Ok ==> final(self).spec_layouts() == old(self).spec_layouts().push(layout),
            !old(self).spec_names().contains(name@) && old(self).spec_names().len() <= u32::MAX
                ==> r is Ok,
            !old(self).spec_names().contains(name@) && old(self).spec_names().len() > u32::MAX
                ==> r == Err::<ActorType, RegistryError>(RegistryError::TooManyTypes),
            r is Err ==> final(self).spec_names() == old(self).spec_names(),
            r is Err ==> final(self).spec_layouts() == old(self).spec_layouts(),
    {
        match self.by_name(&name) {
            Some(_) => Err(RegistryError::DuplicateName),
            None => {
                let n = self.names.len();
                if n > u32::MAX as usize {
                    return Err(RegistryError::TooManyTypes);
                }
                let ghost before = self.names@;
                self.names.push(name);
                self.layouts.push(layout);
                assert(name_seqs(self.names@) =~= name_seqs(before).push(name@));
                Ok(ActorType(n as u32))
            },
        }
    }

    /// The layout of the type numbered `t`.
    pub fn layout_of(&self, t: ActorType) -> (r: Layout)
        requires
            self.wf(),
            t.0 < self.spec_names().len(),
        ensures
            r == self.spec_layouts()[t.0 as int],
    {
        self.layouts[t.0 as usize]
    }

    /// The types registered under `typenames`, in order, with their layouts;
    /// fails at the first name that nobody registered.
    pub fn resolve(&self, typenames: &[String]) -> (r: Result<
        (Vec<ActorType>, Vec<Layout>),
        RegistryError,
    >)
        requires
            self.wf(),
        ensures
            r matches Ok((types, layouts)) ==> {
                &&& types@.len() == typenames@.len()
                &&& layouts@.len() == typenames@.len()
                &&& forall|i: int|
                    0 <= i < types@.len() ==> (#[trigger] types@[i]).0 < self.spec_names().len()
                        && self.spec_names()[types@[i].0 as int] == typenames@[i]@
                        && layouts@[i] == self.spec_layouts()[types@[i].0 as int]
            },
            r matches Err(e) ==> (e matches RegistryError::UnknownName(i) && i < typenames@.len()
                && !self.spec_names().contains(typenames@[i as int]@) && forall|j: int|
                0 <= j < i ==> self.spec_names().contains(#[trigger] typenames@[j]@)),
            (forall|i: int|
                0 <= i < typenames@.len() ==> self.spec_names().contains(#[trigger] typenames@[i]@))
                ==> r is Ok,
    {
        let mut types: Vec<ActorType> = Vec::with_capacity(typenames.len());
        let mut layouts: Vec<Layout> = Vec::with_capacity(typenames.len());
        let mut i: usize = 0;
        while i < typenames.len()
            invariant
                self.wf(),
                0 <= i <= typenames@.len(),
                types@.len() == i,
                layouts@.len() == i,
                forall|j: int|
                    0 <= j < i ==> (#[trigger] types@[j]).0 < self.spec_names().len()
                        && self.spec_names()[types@[j].0 as int] == typenames@[j]@ && layouts@[j]
                        == self.spec_layouts()[types@[j].0 as int],
                forall|j: int| 0 <= j < i ==> self.spec_names().contains(#[trigger] typenames@[j]@),
            decreases typenames@.len() - i,
        {
            match self.by_name(&typenames[i]) {
                Some(t) => {
                    types.push(t);
                    layouts.push(self.layout_of(t));
                },
                None => {
                    return Err(RegistryError::UnknownName(i));
                },
            }
            i += 1;
        }
        Ok((types, layouts))
    }
}

} // verus!
