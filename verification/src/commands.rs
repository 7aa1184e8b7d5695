//! The recorded commands of the blob images.

use std::collections::HashMap;
use std::sync::Arc;
use vstd::prelude::*;

use crate::keys::{ImageKey, TileSize};

verus! {

/// `clone` of a `std::sync::Arc`: another pointer to the same value.
#[verifier::external_body]
pub(crate) fn share<T>(value: &Arc<T>) -> (shared: Arc<T>)
    ensures
        shared == *value,
{
    Arc::clone(value)
}

/// The recording and the tile size of each blob image.
pub struct BlobCommands {
    map: HashMap<u64, (Arc<Vec<u8>>, Option<TileSize>)>,
}

/// An image key as one number.
spec fn packed(key: ImageKey) -> u64 {
    (key.0.0 * 0x1_0000_0000 + key.1) as u64
}

/// Distinct keys give distinct numbers.
proof fn lemma_packed_is_injective(a: ImageKey, b: ImageKey)
    ensures
        packed(a) == packed(b) ==> a == b,
{
    assert(packed(a) == a.0.0 * 0x1_0000_0000 + a.1);
    assert(packed(b) == b.0.0 * 0x1_0000_0000 + b.1);
}

fn pack(key: ImageKey) -> (id: u64)
    ensures
        id == packed(key),
{
    (key.0.0 as u64) * 0x1_0000_0000 + key.1 as u64
}

impl View for BlobCommands {
    type V = Map<ImageKey, (Seq<u8>, Option<TileSize>)>;

    closed spec fn view(&self) -> Map<ImageKey, (Seq<u8>, Option<TileSize>)> {
        Map::new(
            |key: ImageKey| self.map@.contains_key(packed(key)),
            |key: ImageKey| (self.map@[packed(key)].0@, self.map@[packed(key)].1),
        )
    }
}

impl BlobCommands {
    /// No images.
    pub fn new() -> (commands: BlobCommands)
        ensures
            commands@ == Map::<ImageKey, (Seq<u8>, Option<TileSize>)>::empty(),
    {
        let commands = BlobCommands { map: HashMap::new() };
        assert(commands@ =~= Map::empty());
        commands
    }

    /// Sets the recording and the tile size of an image.
    pub fn insert(&mut self, key: ImageKey, data: Arc<Vec<u8>>, tiling: Option<TileSize>)
        ensures
            final(self)@ == old(self)@.insert(key, (data@, tiling)),
    {
        broadcast use vstd::std_specs::hash::group_hash_axioms;

        self.map.insert(pack(key), (data, tiling));
        proof {
            assert forall|other: ImageKey| packed(other) == packed(key) implies other == key by {
                lemma_packed_is_injective(other, key);
            }
            assert(self@ =~= old(self)@.insert(key, (data@, tiling)));
        }
    }

    /// The recording and the tile size of an image.
    pub fn get(&self, key: ImageKey) -> (found: Option<(Arc<Vec<u8>>, Option<TileSize>)>)
        ensures
            found is Some <==> self@.contains_key(key),
            found matches Some((data, tiling)) ==> (data@, tiling) == self@[key],
    {
        broadcast use vstd::std_specs::hash::group_hash_axioms;

        match self.map.get(&pack(key)) {
            Some(commands) => Some((share(&commands.0), commands.1)),
            None => None,
        }
    }

    /// Forgets an image.
    pub fn remove(&mut self, key: ImageKey)
        ensures
            final(self)@ == old(self)@.remove(key),
    {
        broadcast use vstd::std_specs::hash::group_hash_axioms;

        self.map.remove(&pack(key));
        proof {
            assert forall|other: ImageKey| packed(other) == packed(key) implies other == key by {
                lemma_packed_is_injective(other, key);
            }
            assert(self@ =~= old(self)@.remove(key));
        }
    }
}

impl Clone for BlobCommands {
    fn clone(&self) -> (copy: BlobCommands)
        ensures
            copy@ == self@,
    {
        BlobCommands { map: self.map.clone() }
    }
}

} // verus!
