use vstd::prelude::*;

verus! {

/// Identity of a context, a single-threaded execution domain. Valid ids are
/// dense and start at one.
#[derive(Clone, Copy, Debug, PartialEq, Eq, Structural, Hash)]
pub struct ContextId(pub u32);

/// Identity of an actor. Valid ids are dense and start at one, in
/// configuration order.
#[derive(Clone, Copy, Debug, PartialEq, Eq, Structural, Hash)]
pub struct ActorId(pub u32);

impl ActorId {
    /// The id `x`; `None` for zero, which no actor has.
    pub fn new(x: u32) -> (r: Option<Self>)
        ensures
            r == (if x == 0 { None } else { Some(ActorId(x)) }),
    {
        if x == 0 {
            None
        } else {
            Some(ActorId(x))
        }
    }

    pub fn as_u32(self) -> (r: u32)
        ensures
            r == self.0,
    {
        self.0
    }

    /// The position of the actor in configuration order, counting from zero.
    pub fn as_index(self) -> (r: usize)
        requires
            self.0 >= 1,
        ensures
            r == self.0 - 1,
    {
        (self.0 - 1) as usize
    }
}

impl ContextId {
    /// The id `x`; `None` for zero, which no context has.
    pub fn new(x: u32) -> (r: Option<Self>)
        ensures
            r == (if x == 0 { None } else { Some(ContextId(x)) }),
    {
        if x == 0 {
            None
        } else {
            Some(ContextId(x))
        }
    }

    pub fn as_u32(self) -> (r: u32)
        ensures
            r == self.0,
    {
        self.0
    }

    /// The position of the context among all contexts, counting from zero.
    pub fn as_index(self) -> (r: usize)
        requires
            self.0 >= 1,
        ensures
            r == self.0 - 1,
    {
        (self.0 - 1) as usize
    }

    /// A context id holding `x` as it is.
    pub fn from_u32(x: u32) -> (r: Self)
        ensures
            r.0 == x,
    {
        ContextId(x)
    }
}

} // verus!
