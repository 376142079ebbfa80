use vstd::prelude::*;
use std::collections::HashMap;

use crate::error::ConversionError;
use crate::texture::{after_conversion, conversion_outcome, Texture, TextureView};

verus! {

broadcast use vstd::std_specs::hash::group_hash_axioms;

/// The images whose pixel data is resident, by reference.
pub struct TextureStore {
    textures: HashMap<u64, Texture>,
}

impl View for TextureStore {
    type V = Map<u64, TextureView>;

    closed spec fn view(&self) -> Map<u64, TextureView> {
        self.textures@.map_values(|t: Texture| t@)
    }
}

impl TextureStore {
    /// A store in which nothing is resident yet.
    pub fn new() -> (r: TextureStore)
        ensures
            r@ == Map::<u64, TextureView>::empty(),
    {
        let r = TextureStore { textures: HashMap::new() };
        assert(r@ =~= Map::<u64, TextureView>::empty());
        r
    }

    /// Makes the pixel data of `handle` resident, replacing what was there before.
    pub fn insert(&mut self, handle: u64, texture: Texture)
        ensures
            final(self)@ == old(self)@.insert(handle, texture@),
    {
        self.textures.insert(handle, texture);
        assert(self@ =~= old(self)@.insert(handle, texture@));
    }

    /// Whether the pixel data of `handle` is resident.
    pub fn is_resident(&self, handle: u64) -> (r: bool)
        ensures
            r == self@.contains_key(handle),
    {
        self.textures.contains_key(&handle)
    }

    /// The resident image of `handle`, if any.
    pub fn get(&self, handle: u64) -> (r: Option<&Texture>)
        ensures
            match r {
                Some(t) => self@.contains_key(handle) && t@ == self@[handle],
                None => !self@.contains_key(handle),
            },
    {
        self.textures.get(&handle)
    }

    /// Takes the image of `handle` out of the store, if it is resident.
    pub fn remove(&mut self, handle: u64) -> (r: Option<Texture>)
        ensures
            final(self)@ == old(self)@.remove(handle),
            match r {
                Some(t) => old(self)@.contains_key(handle) && t@ == old(self)@[handle],
                None => !old(self)@.contains_key(handle),
            },
    {
        let r = self.textures.remove(&handle);
        assert(self@ =~= old(self)@.remove(handle));
        r
    }

    /// Converts the image of `handle` in place, if it is resident: `None` when it is not, else
    /// the outcome of the conversion.
    pub fn convert(&mut self, handle: u64) -> (r: Option<Result<(), ConversionError>>)
        ensures
            old(self)@.contains_key(handle) ==> r == Some(conversion_outcome(old(self)@[handle]))
                && final(self)@ == old(self)@.insert(handle, after_conversion(old(self)@[handle])),
            !old(self)@.contains_key(handle) ==> r is None && final(self)@ == old(self)@,
    {
        match self.textures.remove(&handle) {
            Some(mut texture) => {
                let outcome = texture.reinterpret_stacked_as_array();
                self.textures.insert(handle, texture);
                assert(self@ =~= old(self)@.insert(handle, after_conversion(old(self)@[handle])));
                Some(outcome)
            },
            None => None,
        }
    }
}

} // verus!
