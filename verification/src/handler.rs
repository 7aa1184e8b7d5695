//! The blob images that are known, and their updates.

use rayon::ThreadPool;
use std::sync::Arc;
use vstd::prelude::*;

use crate::bytes::{native_byte_order, uint_value, word_size, ByteOrder};
use crate::commands::{share, BlobCommands};
use crate::fonts::{can_prepare_request, fonts_readable, prepare_request, requested_fonts};
use crate::geometry::{Box2d, DeviceUintRect};
use crate::index::{find_index, has_index, index_bytes, BlobReader};
use crate::keys::{FontInstanceKey, ImageKey, TileSize};
use crate::laws::law_merged_is_blob;
use crate::merge::{can_merge_blob_images, merge_blob_images, mergeable, merged};
use crate::rasterizer::{BlobImageParams, Moz2dBlobRasterizer};

verus! {

/// Keeps the recordings of blob images.
pub struct Moz2dBlobImageHandler {
    workers: Arc<ThreadPool>,
    blob_commands: BlobCommands,
    order: ByteOrder,
}

impl View for Moz2dBlobImageHandler {
    type V = Map<ImageKey, (Seq<u8>, Option<TileSize>)>;

    closed spec fn view(&self) -> Map<ImageKey, (Seq<u8>, Option<TileSize>)> {
        self.blob_commands@
    }
}

impl Moz2dBlobImageHandler {
    /// The byte order of the recordings.
    pub closed spec fn byte_order(&self) -> ByteOrder {
        self.order
    }

    /// The threads that rasterize.
    pub closed spec fn pool(&self) -> Arc<ThreadPool> {
        self.workers
    }

    /// The byte order and the threads stay the same.
    pub open spec fn same_setup(&self, other: &Moz2dBlobImageHandler) -> bool {
        &&& self.byte_order() == other.byte_order()
        &&& self.pool() == other.pool()
    }

    /// Each recording has an index.
    pub open spec fn wf(&self) -> bool {
        forall|key: ImageKey| #[trigger]
            self@.contains_key(key) ==> has_index(self.byte_order(), self@[key].0)
    }

    /// `data` has an index, and the index is not empty.
    pub open spec fn addable(&self, data: Seq<u8>) -> bool {
        &&& has_index(self.byte_order(), data)
        &&& index_bytes(self.byte_order(), data).len() > 0
    }

    /// The image is known, and `data` can be merged into its recording.
    pub open spec fn updatable(
        &self,
        key: ImageKey,
        data: Seq<u8>,
        dirty_rect: Option<DeviceUintRect>,
    ) -> bool {
        &&& self@.contains_key(key)
        &&& dirty_rect is Some
        &&& dirty_rect->0.in_range()
        &&& mergeable(self.byte_order(), self@[key].0, data, Box2d::of_rect(dirty_rect->0))
    }

    /// The image is known, and the fonts of its recording can be read.
    pub open spec fn preparable(&self, params: BlobImageParams) -> bool {
        &&& self@.contains_key(params.request.key)
        &&& fonts_readable(self.byte_order(), self@[params.request.key].0)
    }

    /// Starts without images, for recordings made on this machine. Which byte
    /// order they have is up to the machine, and not stated.
    pub fn new(workers: Arc<ThreadPool>) -> (handler: Moz2dBlobImageHandler)
        ensures
            handler@ == Map::<ImageKey, (Seq<u8>, Option<TileSize>)>::empty(),
            handler.pool() == workers,
            handler.wf(),
    {
        Moz2dBlobImageHandler::with_byte_order(workers, native_byte_order())
    }

    /// Starts without images, for recordings with the given byte order.
    pub fn with_byte_order(
        workers: Arc<ThreadPool>,
        order: ByteOrder,
    ) -> (handler: Moz2dBlobImageHandler)
        ensures
            handler@ == Map::<ImageKey, (Seq<u8>, Option<TileSize>)>::empty(),
            handler.pool() == workers,
            handler.byte_order() == order,
            handler.wf(),
    {
        Moz2dBlobImageHandler { workers, blob_commands: BlobCommands::new(), order }
    }

    /// The byte order of the recordings.
    pub fn order(&self) -> (order: ByteOrder)
        ensures
            order == self.byte_order(),
    {
        self.order
    }

    /// Registers a blob image.
    pub fn add(&mut self, key: ImageKey, data: Arc<Vec<u8>>, tiling: Option<TileSize>)
        requires
            old(self).addable(data@),
        ensures
            final(self)@ == old(self)@.insert(key, (data@, tiling)),
            final(self).same_setup(old(self)),
            final(self).byte_order() == old(self).byte_order(),
            final(self).pool() == old(self).pool(),
            old(self).wf() ==> final(self).wf(),
    {
        self.blob_commands.insert(key, data, tiling);
        proof {
            if old(self).wf() {
                assert forall|other: ImageKey| #[trigger] self@.contains_key(other) implies has_index(
                    self.byte_order(),
                    self@[other].0,
                ) by {
                    if other != key {
                        assert(old(self)@.contains_key(other));
                    }
                }
            }
        }
    }

    /// Tells whether `data` can be registered.
    pub fn can_add(&self, data: &Vec<u8>) -> (possible: bool)
        ensures
            possible == self.addable(data@),
            possible <==> word_size() <= data@.len() && uint_value(
                self.byte_order(),
                data@.skip(data@.len() - word_size()),
            ) < data@.len() - word_size(),
    {
        find_index(data.as_slice(), self.order) && BlobReader::new(
            data.as_slice(),
            self.order,
        ).reader.has_more()
    }

    /// Merges an update into a registered blob image.
    pub fn update(&mut self, key: ImageKey, data: Arc<Vec<u8>>, dirty_rect: Option<DeviceUintRect>)
        requires
            old(self).updatable(key, data@, dirty_rect),
        ensures
            final(self)@ == old(self)@.insert(
                key,
                (
                    merged(
                        old(self).byte_order(),
                        old(self)@[key].0,
                        data@,
                        Box2d::of_rect(dirty_rect->0),
                    ),
                    old(self)@[key].1,
                ),
            ),
            ({
                let rect = dirty_rect->0;
                let corners = Box2d {
                    x1: rect.origin.x,
                    y1: rect.origin.y,
                    x2: (rect.origin.x + rect.size.width) as u32,
                    y2: (rect.origin.y + rect.size.height) as u32,
                };
                let (recording, tiling) = old(self)@[key];
                final(self)@ == old(self)@.insert(
                    key,
                    (merged(old(self).byte_order(), recording, data@, corners), tiling),
                )
            }),
            final(self).same_setup(old(self)),
            final(self).byte_order() == old(self).byte_order(),
            final(self).pool() == old(self).pool(),
            old(self).wf() ==> final(self).wf(),
    {
        if let Some(rect) = dirty_rect {
            if let Some((old_data, tiling)) = self.blob_commands.get(key) {
                let result: Vec<u8> = merge_blob_images(
                    old_data.as_slice(),
                    data.as_slice(),
                    Box2d::from(rect),
                    self.order,
                );
                proof {
                    law_merged_is_blob(self.order, old_data@, data@, Box2d::of_rect(rect));
                }
                self.blob_commands.insert(key, Arc::new(result), tiling);
            }
        }
    }

    /// Tells whether `data` can be merged into a registered blob image.
    pub fn can_update(
        &self,
        key: ImageKey,
        data: &Vec<u8>,
        dirty_rect: Option<DeviceUintRect>,
    ) -> (possible: bool)
        ensures
            possible == self.updatable(key, data@, dirty_rect),
            possible <==> {
                let rect = dirty_rect->0;
                let corners = Box2d {
                    x1: rect.origin.x,
                    y1: rect.origin.y,
                    x2: (rect.origin.x + rect.size.width) as u32,
                    y2: (rect.origin.y + rect.size.height) as u32,
                };
                &&& self@.contains_key(key)
                &&& dirty_rect is Some
                &&& rect.origin.x + rect.size.width <= u32::MAX
                &&& rect.origin.y + rect.size.height <= u32::MAX
                &&& mergeable(self.byte_order(), self@[key].0, data@, corners)
            },
    {
        match (dirty_rect, self.blob_commands.get(key)) {
            (Some(rect), Some((old_data, _))) => rect.has_edges() && can_merge_blob_images(
                old_data.as_slice(),
                data.as_slice(),
                Box2d::from(rect),
                self.order,
            ),
            _ => false,
        }
    }

    /// Forgets a blob image.
    pub fn delete(&mut self, key: ImageKey)
        ensures
            final(self)@ == old(self)@.remove(key),
            final(self).same_setup(old(self)),
            final(self).byte_order() == old(self).byte_order(),
            final(self).pool() == old(self).pool(),
            old(self).wf() ==> final(self).wf(),
    {
        self.blob_commands.remove(key);
        proof {
            if old(self).wf() {
                assert forall|other: ImageKey| #[trigger] self@.contains_key(other) implies has_index(
                    self.byte_order(),
                    self@[other].0,
                ) by {
                    if other != key {
                        assert(old(self)@.contains_key(other));
                    }
                }
            }
        }
    }

    /// Takes a snapshot of the blob images.
    pub fn create_blob_rasterizer(&self) -> (rasterizer: Moz2dBlobRasterizer)
        ensures
            rasterizer.blob_commands@ == self@,
            rasterizer.workers == self.pool(),
    {
        Moz2dBlobRasterizer {
            workers: share(&self.workers),
            blob_commands: self.blob_commands.clone(),
        }
    }

    /// Finds the fonts that each of the requests needs.
    pub fn prepare_resources(&self, requests: &[BlobImageParams]) -> (fonts: Vec<
        Vec<FontInstanceKey>,
    >)
        requires
            forall|i: int| 0 <= i < requests@.len() ==> self.preparable(#[trigger] requests@[i]),
        ensures
            fonts@.len() == requests@.len(),
            forall|i: int|
                0 <= i < requests@.len() ==> (#[trigger] fonts@[i])@ == requested_fonts(
                    self.byte_order(),
                    self@[requests@[i].request.key].0,
                ),
    {
        let mut fonts: Vec<Vec<FontInstanceKey>> = Vec::new();
        let mut i: usize = 0;
        while i < requests.len()
            invariant
                i <= requests@.len(),
                fonts@.len() == i,
                forall|j: int|
                    0 <= j < requests@.len() ==> self.preparable(#[trigger] requests@[j]),
                forall|j: int|
                    0 <= j < i ==> (#[trigger] fonts@[j])@ == requested_fonts(
                        self.byte_order(),
                        self@[requests@[j].request.key].0,
                    ),
            decreases requests@.len() - i,
        {
            assert(self.preparable(requests@[i as int]));
            if let Some((blob, _)) = self.blob_commands.get(requests[i].request.key) {
                fonts.push(prepare_request(blob.as_slice(), self.order));
            }
            i += 1;
        }
        fonts
    }

    /// Tells whether all images are known and the fonts of all recordings can
    /// be read.
    pub fn can_prepare_resources(&self, requests: &[BlobImageParams]) -> (possible: bool)
        ensures
            possible == forall|i: int|
                0 <= i < requests@.len() ==> self.preparable(#[trigger] requests@[i]),
            possible <==> forall|i: int|
                #![trigger requests@[i]]
                0 <= i < requests@.len() ==> self@.contains_key(requests@[i].request.key)
                    && fonts_readable(self.byte_order(), self@[requests@[i].request.key].0),
    {
        let mut i: usize = 0;
        while i < requests.len()
            invariant
                i <= requests@.len(),
                forall|j: int| 0 <= j < i ==> self.preparable(#[trigger] requests@[j]),
            decreases requests@.len() - i,
        {
            let ready: bool = match self.blob_commands.get(requests[i].request.key) {
                Some((blob, _)) => can_prepare_request(blob.as_slice(), self.order),
                None => false,
            };
            if !ready {
                assert(!self.preparable(requests@[i as int]));
                return false;
            }
            i += 1;
        }
        true
    }
}

} // verus!
