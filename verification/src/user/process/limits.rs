//! Limits on the resources of a process.
use core::marker::PhantomData;
use vstd::prelude::*;

verus! {

/// A limit.
#[derive(Clone, Copy, PartialEq, Eq, Structural, Debug)]
pub struct RLimit {
    /// The limit that is in effect.
    pub rlim_cur: u32,
    /// What the limit can be raised to.
    pub rlim_max: u32,
}

/// A resource that is limited.
#[derive(Clone, Copy, PartialEq, Eq, Structural, Debug)]
pub enum Resource {
    /// The size of the stack.
    Stack,
    /// The number of open files.
    NoFile,
}

/// The limits of a process.
#[derive(Clone, Copy, PartialEq, Eq, Structural, Debug)]
pub struct Limits {
    stack: RLimit,
    no_file: RLimit,
}

/// The limit on a resource that a process starts out with.
pub open spec fn default_limit(resource: Resource) -> RLimit {
    match resource {
        Resource::Stack => RLimit { rlim_cur: 0x80_0000, rlim_max: 0x80_0000 },
        Resource::NoFile => RLimit { rlim_cur: 1024, rlim_max: 65536 },
    }
}

impl Limits {
    /// The limit on a resource.
    pub closed spec fn limit(self, resource: Resource) -> RLimit {
        match resource {
            Resource::Stack => self.stack,
            Resource::NoFile => self.no_file,
        }
    }

    /// The limits that a process starts out with.
    pub fn default() -> (res: Self)
        ensures
            forall|resource: Resource| #[trigger] res.limit(resource) == default_limit(resource),
    {
        Limits {
            stack: RLimit { rlim_cur: 0x80_0000, rlim_max: 0x80_0000 },
            no_file: RLimit { rlim_cur: 1024, rlim_max: 65536 },
        }
    }

    /// The limit on a resource.
    pub fn index(&self, index: Resource) -> (res: &RLimit)
        ensures
            *res == self.limit(index),
    {
        match index {
            Resource::Stack => &self.stack,
            Resource::NoFile => &self.no_file,
        }
    }

    /// The limit on a resource, which can be changed.
    pub fn index_mut(&mut self, index: Resource) -> (res: &mut RLimit)
        ensures
            *res == old(self).limit(index),
            final(self).limit(index) == *final(res),
            forall|other: Resource|
                other != index ==> #[trigger] final(self).limit(other) == old(self).limit(other),
    {
        match index {
            Resource::Stack => &mut self.stack,
            Resource::NoFile => &mut self.no_file,
        }
    }
}

/// A type that stands for a resource.
pub trait ConstResource {
    /// The resource that the type stands for.
    spec fn stands_for() -> Resource;

    /// The resource that the type stands for.
    fn resource() -> (res: Resource)
        ensures
            res == Self::stands_for(),
    ;
}

/// The size of the stack.
pub struct Stack;

impl ConstResource for Stack {
    open spec fn stands_for() -> Resource {
        Resource::Stack
    }

    fn resource() -> (res: Resource) {
        Resource::Stack
    }
}

/// The number of open files.
pub struct NoFile;

impl ConstResource for NoFile {
    open spec fn stands_for() -> Resource {
        Resource::NoFile
    }

    fn resource() -> (res: Resource) {
        Resource::NoFile
    }
}

/// The limit on a resource that is in effect.
pub struct CurrentLimit<R> {
    value: u32,
    resource: PhantomData<R>,
}

impl<R> View for CurrentLimit<R> {
    type V = u32;

    closed spec fn view(&self) -> u32 {
        self.value
    }
}

impl<R> CurrentLimit<R> {
    /// Creates a limit.
    pub fn new(value: u32) -> (res: Self)
        ensures
            res@ == value,
    {
        CurrentLimit { value, resource: PhantomData }
    }

    /// The limit as a number.
    pub fn get(self) -> (res: u32)
        ensures
            res == self@,
    {
        self.value
    }
}

impl<R> Clone for CurrentLimit<R> {
    fn clone(&self) -> (res: Self)
        ensures
            res@ == self@,
    {
        *self
    }
}

impl<R> Copy for CurrentLimit<R> {

}

impl<R: ConstResource> CurrentLimit<R> {
    /// The limit that a process has.
    pub fn extract_from_limits(limits: &Limits) -> (res: Self)
        ensures
            res@ == limits.limit(R::stands_for()).rlim_cur,
    {
        CurrentLimit::new(limits.index(R::resource()).rlim_cur)
    }
}

impl<R: ConstResource> Default for CurrentLimit<R> {
    fn default() -> (res: Self)
        ensures
            res@ == default_limit(R::stands_for()).rlim_cur,
    {
        CurrentLimit::extract_from_limits(&Limits::default())
    }
}

/// The limit on the size of the stack that is in effect.
pub type CurrentStackLimit = CurrentLimit<Stack>;

/// The limit on the number of open files that is in effect.
pub type CurrentNoFileLimit = CurrentLimit<NoFile>;

/// The limits that a process starts out with: a stack of eight megabytes and 1024 open files, which can
/// be raised to 65536. No limit is above what it can be raised to.
pub proof fn law_default_limits(resource: Resource)
    ensures
        default_limit(Resource::Stack).rlim_cur == 8 * 1024 * 1024,
        default_limit(Resource::Stack).rlim_max == 8 * 1024 * 1024,
        default_limit(Resource::NoFile).rlim_cur == 1024,
        default_limit(Resource::NoFile).rlim_max == 65536,
        default_limit(resource).rlim_cur <= default_limit(resource).rlim_max,
        Stack::stands_for() is Stack,
        NoFile::stands_for() is NoFile,
{
}

} // verus!
