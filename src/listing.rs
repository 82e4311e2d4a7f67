use vstd::prelude::*;

use std::collections::HashMap;

verus! {

/// How a directory tree is turned into a listing: as a nested listing of
/// tile folders, or as a flat list of the files they hold.
#[derive(Clone, Copy, Debug, PartialEq, Eq, PartialOrd, Structural)]
pub enum Mode {
    Tiles,
    Files,
}

/// One level of a directory listing: the file names of a folder, or its
/// subfolders by name.
pub enum VecOrHashMap<T, U> {
    Vec(Vec<T>),
    HashMap(HashMap<T, U>),
}

impl<T, U> VecOrHashMap<T, U> {
    /// Whether the level lists nothing.
    pub fn is_empty(&self) -> (r: bool)
        ensures
            r == match self {
                VecOrHashMap::Vec(v) => v@.len() == 0,
                VecOrHashMap::HashMap(m) => m@.is_empty(),
            },
    {
        match self {
            VecOrHashMap::Vec(vec) => vec.len() == 0,
            VecOrHashMap::HashMap(hashmap) => hashmap.is_empty(),
        }
    }
}

} // verus!
