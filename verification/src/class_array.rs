//! Synthesized array classes.
//!
//! An array class is not backed by a class file: the loading engine builds
//! one from the requested name's leading dimensionality markers and the
//! component descriptor that follows them.

use vstd::prelude::*;

use crate::class::ACC_PUBLIC;
use crate::field::FieldDescriptor;

verus! {

/// A synthesized class for an array type.
#[derive(Debug)]
pub struct ClassArray {
    pub dimensions: u8,
    pub component_type: FieldDescriptor,
    pub access_flags: u16,
    pub name: String,
}

impl ClassArray {
    /// Builds an array class with the default public access flags.
    pub fn new(dimensions: u8, component_type: FieldDescriptor, class_name: &str) -> (r: ClassArray)
        ensures
            r.dimensions == dimensions,
            r.component_type == component_type,
            r.access_flags == ACC_PUBLIC,
            r.name@ == class_name@,
    {
        ClassArray {
            dimensions,
            component_type,
            access_flags: ACC_PUBLIC,
            name: class_name.to_owned(),
        }
    }

    pub fn get_name(&self) -> (r: &String)
        ensures
            r@ == self.name@,
    {
        &self.name
    }

    pub fn get_access_flags(&self) -> (r: u16)
        ensures
            r == self.access_flags,
    {
        self.access_flags
    }
}

} // verus!
