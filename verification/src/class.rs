//! Loaded classes and references between them.
//!
//! A reference to another class starts out `Symbolic`, holding only the
//! class's name, and is promoted at most once to `Static`, holding the
//! handle of the loaded class in the loader's table.  The promotion is
//! monotonic: a resolved reference never reverts.

use vstd::prelude::*;

use crate::class_array::ClassArray;
use crate::class_file::ClassFile;
use crate::lazy::LazyResolve;

verus! {

/// Class access flags, as the format stores them.
pub const ACC_PUBLIC: u16 = 0x0001;

pub const ACC_FINAL: u16 = 0x0010;

pub const ACC_SUPER: u16 = 0x0020;

pub const ACC_INTERFACE: u16 = 0x0200;

pub const ACC_ABSTRACT: u16 = 0x0400;

pub const ACC_SYNTHETIC: u16 = 0x1000;

pub const ACC_ANNOTATION: u16 = 0x2000;

pub const ACC_ENUM: u16 = 0x4000;

/// A loaded class: decoded from a class file, or synthesized for an array
/// type.
#[derive(Debug)]
pub enum Class {
    File(ClassFile),
    Array(ClassArray),
}

/// A reference to a class: by name until resolved, then by handle into the
/// loader's class table.
#[derive(Debug)]
pub enum ClassRef {
    Symbolic(String),
    Static(usize),
}

impl ClassRef {
    /// The name a reference stands for.
    pub open spec fn spec_name(self) -> Option<Seq<char>> {
        match self {
            ClassRef::Symbolic(n) => Some(n@),
            ClassRef::Static(_) => None,
        }
    }

    /// The handle of a resolved reference; a symbolic reference has none to
    /// give.
    pub fn get(&self) -> (r: usize)
        requires
            self is Static,
        ensures
            self == ClassRef::Static(r),
    {
        match self {
            ClassRef::Static(h) => *h,
            ClassRef::Symbolic(_) => vstd::pervasive::unreached(),
        }
    }

    /// Promotes a symbolic reference through `resolver`, at most once: a
    /// reference that is already resolved is returned unchanged, never
    /// reverted.
    pub fn resolve<R: LazyResolve<usize>>(&mut self, resolver: &mut R) -> (r: Option<usize>)
        ensures
            match *old(self) {
                ClassRef::Static(h) => r == Some(h) && *final(self) == *old(self),
                ClassRef::Symbolic(_) => match r {
                    Some(h) => *final(self) == ClassRef::Static(h),
                    None => *final(self) == *old(self),
                },
            },
    {
        let class_name = match self {
            ClassRef::Static(h) => {
                return Some(*h);
            },
            ClassRef::Symbolic(n) => n.clone(),
        };
        match resolver.resolve(class_name.as_str()) {
            Some(h) => {
                *self = ClassRef::Static(h);
                Some(h)
            },
            None => None,
        }
    }
}

impl Class {
    /// The class's fully qualified name.
    pub open spec fn name(self) -> Seq<char> {
        match self {
            Class::File(c) => c.this_class@,
            Class::Array(c) => c.name@,
        }
    }

    /// The class's access flags.
    pub open spec fn flags(self) -> u16 {
        match self {
            Class::File(c) => c.access_flags,
            Class::Array(c) => c.access_flags,
        }
    }

    /// Whether the class is an interface.
    pub open spec fn is_interface(self) -> bool {
        self.flags() & ACC_INTERFACE != 0
    }

    pub fn get_name(&self) -> (r: &String)
        ensures
            r@ == self.name(),
    {
        match self {
            Class::File(c) => c.get_name(),
            Class::Array(c) => c.get_name(),
        }
    }

    pub fn get_access_flags(&self) -> (r: u16)
        ensures
            r == self.flags(),
    {
        match self {
            Class::File(c) => c.get_access_flags(),
            Class::Array(c) => c.get_access_flags(),
        }
    }
}

} // verus!
