//! Rasterization jobs.

use rayon::ThreadPool;
use std::sync::Arc;
use vstd::prelude::*;

use crate::bytes::max_len;
use crate::commands::BlobCommands;
use crate::geometry::{DeviceUintPoint, DeviceUintRect, DeviceUintSize};
use crate::keys::{ImageKey, TileOffset, TileSize};

verus! {

/// A pool of threads, which is only passed on.
#[verifier::external_type_specification]
#[verifier::external_body]
pub struct ExThreadPool(rayon::ThreadPool);

/// The format of a series of pixels.
#[derive(Clone, Copy, Debug, PartialEq, Eq, Structural)]
pub enum ImageFormat {
    R8,
    BGRA8,
    RGBAF32,
    RG8,
    RGBAI32,
}

/// The number of bytes that a pixel takes.
pub open spec fn pixel_size(format: ImageFormat) -> u32 {
    match format {
        ImageFormat::R8 => 1,
        ImageFormat::BGRA8 => 4,
        ImageFormat::RGBAF32 => 16,
        ImageFormat::RG8 => 2,
        ImageFormat::RGBAI32 => 16,
    }
}

/// `bytes_per_pixel` of a `webrender_api::ImageFormat`: one byte for `R8`, two
/// for `RG8`, four for `BGRA8`, and sixteen for `RGBAF32` and `RGBAI32`.
#[verifier::external_body]
fn bytes_per_pixel(format: ImageFormat) -> (size: u32)
    ensures
        size == pixel_size(format),
{
    let format = match format {
        ImageFormat::R8 => webrender_api::ImageFormat::R8,
        ImageFormat::BGRA8 => webrender_api::ImageFormat::BGRA8,
        ImageFormat::RGBAF32 => webrender_api::ImageFormat::RGBAF32,
        ImageFormat::RG8 => webrender_api::ImageFormat::RG8,
        ImageFormat::RGBAI32 => webrender_api::ImageFormat::RGBAI32,
    };
    format.bytes_per_pixel()
}

/// What is to be rasterized: an image, or a tile of one.
#[derive(Clone, Copy, Debug, PartialEq, Eq, Structural)]
pub struct BlobImageRequest {
    pub key: ImageKey,
    pub tile: Option<TileOffset>,
}

/// The size and the format of the pixels to produce.
#[derive(Clone, Copy, Debug, PartialEq, Eq, Structural)]
pub struct BlobImageDescriptor {
    pub size: DeviceUintSize,
    pub format: ImageFormat,
}

/// A request with what is needed to meet it.
#[derive(Clone, Copy, Debug, PartialEq, Eq, Structural)]
pub struct BlobImageParams {
    pub request: BlobImageRequest,
    pub descriptor: BlobImageDescriptor,
    pub dirty_rect: Option<DeviceUintRect>,
}

/// Pixels, and the rectangle that they are of.
pub struct RasterizedBlobImage {
    pub rasterized_rect: DeviceUintRect,
    pub data: Arc<Vec<u8>>,
}

impl BlobImageDescriptor {
    /// The number of bytes of all pixels.
    pub open spec fn byte_count(self) -> nat {
        (self.size.width * self.size.height * pixel_size(self.format)) as nat
    }

    /// The number of bytes of all pixels can be expressed as a `u32`, and so
    /// many can be held in memory.
    pub open spec fn in_memory(self) -> bool {
        &&& self.byte_count() <= u32::MAX
        &&& self.byte_count() <= max_len()
    }

    /// The number of bytes of all pixels.
    pub fn buf_size(&self) -> (size: usize)
        requires
            self.byte_count() <= u32::MAX,
        ensures
            size == self.byte_count(),
            size == self.size.width * self.size.height * (match self.format {
                ImageFormat::R8 => 1int,
                ImageFormat::RG8 => 2,
                ImageFormat::BGRA8 => 4,
                ImageFormat::RGBAF32 => 16,
                ImageFormat::RGBAI32 => 16,
            }),
    {
        let width: u32 = self.size.width;
        let height: u32 = self.size.height;
        let pixel: u32 = bytes_per_pixel(self.format);
        assert(width * height <= width * height * pixel) by (nonlinear_arith)
            requires
                pixel >= 1,
        ;
        (width * height * pixel) as usize
    }

    /// Tells whether the number of bytes of all pixels can be expressed as a
    /// `u32`, and so many can be held in memory.
    pub fn fits(&self) -> (yes: bool)
        ensures
            yes == self.in_memory(),
            ({
                let count = self.size.width * self.size.height * (match self.format {
                    ImageFormat::R8 => 1int,
                    ImageFormat::RG8 => 2,
                    ImageFormat::BGRA8 => 4,
                    ImageFormat::RGBAF32 => 16,
                    ImageFormat::RGBAI32 => 16,
                });
                yes <==> count <= u32::MAX && count <= isize::MAX
            }),
    {
        let pixel: u32 = bytes_per_pixel(self.format);
        assert(self.size.width * self.size.height <= self.size.width * self.size.height * pixel)
            by (nonlinear_arith)
            requires
                pixel >= 1,
        ;
        match self.size.width.checked_mul(self.size.height) {
            Some(pixels) => match pixels.checked_mul(pixel) {
                Some(size) => size as usize <= isize::MAX as usize,
                None => false,
            },
            None => false,
        }
    }
}

/// A request with the recording that it is about.
pub struct Job {
    pub request: BlobImageRequest,
    pub descriptor: BlobImageDescriptor,
    pub commands: Arc<Vec<u8>>,
    pub dirty_rect: Option<DeviceUintRect>,
    pub tile_size: Option<TileSize>,
}

impl Job {
    /// The rectangle that gets rasterized: the dirty one, or all of the image.
    pub open spec fn rasterized_rect(&self) -> DeviceUintRect {
        match self.dirty_rect {
            Some(rect) => rect,
            None => DeviceUintRect {
                origin: DeviceUintPoint { x: 0, y: 0 },
                size: self.descriptor.size,
            },
        }
    }

    /// A cleared buffer for the pixels.
    pub fn new_output(&self) -> (output: Vec<u8>)
        requires
            self.descriptor.in_memory(),
        ensures
            output@ == Seq::new(self.descriptor.byte_count(), |i: int| 0u8),
            output@.len() == self.descriptor.size.width * self.descriptor.size.height * (
            match self.descriptor.format {
                ImageFormat::R8 => 1int,
                ImageFormat::RG8 => 2,
                ImageFormat::BGRA8 => 4,
                ImageFormat::RGBAF32 => 16,
                ImageFormat::RGBAI32 => 16,
            }),
            forall|i: int| 0 <= i < output@.len() ==> #[trigger] output@[i] == 0,
    {
        let output: Vec<u8> = vec![0u8; self.descriptor.buf_size()];
        assert(output@ =~= Seq::new(self.descriptor.byte_count(), |i: int| 0u8));
        output
    }

    /// The answer to the request, once its pixels were drawn.
    pub fn finish(self, output: Vec<u8>) -> (result: (BlobImageRequest, RasterizedBlobImage))
        ensures
            result.0 == self.request,
            result.1.rasterized_rect == self.rasterized_rect(),
            self.dirty_rect matches Some(rect) ==> result.1.rasterized_rect == rect,
            self.dirty_rect is None ==> result.1.rasterized_rect.origin.x == 0
                && result.1.rasterized_rect.origin.y == 0 && result.1.rasterized_rect.size
                == self.descriptor.size,
            result.1.data@ == output@,
    {
        let rasterized_rect = self.dirty_rect.unwrap_or(
            DeviceUintRect { origin: DeviceUintPoint::origin(), size: self.descriptor.size },
        );
        (self.request, RasterizedBlobImage { rasterized_rect, data: Arc::new(output) })
    }
}

/// What is rasterized of an image, whether it has tiles or not: the dirty
/// rectangle where there is one, else the whole image, from the origin on.
pub proof fn law_rasterized_rect(job: Job)
    ensures
        job.dirty_rect matches Some(rect) ==> job.rasterized_rect() == rect,
        job.dirty_rect is None ==> job.rasterized_rect().origin.x == 0
            && job.rasterized_rect().origin.y == 0 && job.rasterized_rect().size
            == job.descriptor.size,
{
}

/// The number of bytes of an image is that of its upper and its lower part, and
/// that of its left and its right part, taken together. An image of one pixel
/// takes the bytes of a pixel of its format.
pub proof fn law_byte_count(format: ImageFormat, width: u32, height: u32, part: u32)
    ensures
        part <= height ==> (BlobImageDescriptor {
            size: DeviceUintSize { width, height },
            format,
        }).byte_count() == (BlobImageDescriptor {
            size: DeviceUintSize { width, height: part },
            format,
        }).byte_count() + (BlobImageDescriptor {
            size: DeviceUintSize { width, height: (height - part) as u32 },
            format,
        }).byte_count(),
        part <= width ==> (BlobImageDescriptor {
            size: DeviceUintSize { width, height },
            format,
        }).byte_count() == (BlobImageDescriptor {
            size: DeviceUintSize { width: part, height },
            format,
        }).byte_count() + (BlobImageDescriptor {
            size: DeviceUintSize { width: (width - part) as u32, height },
            format,
        }).byte_count(),
        (BlobImageDescriptor {
            size: DeviceUintSize { width: 1, height: 1 },
            format,
        }).byte_count() == (match format {
            ImageFormat::R8 => 1int,
            ImageFormat::RG8 => 2,
            ImageFormat::BGRA8 => 4,
            ImageFormat::RGBAF32 => 16,
            ImageFormat::RGBAI32 => 16,
        }),
{
    let pixel = pixel_size(format) as int;
    if part <= height {
        assert(width * height * pixel == width * part * pixel + width * (height - part) * pixel)
            by (nonlinear_arith);
    }
    if part <= width {
        assert(width * height * pixel == part * height * pixel + (width - part) * height * pixel)
            by (nonlinear_arith);
    }
    assert(forall|a: int, b: int| 0 <= a && 0 <= b ==> 0 <= #[trigger] (a * b)) by (nonlinear_arith);
}

/// A snapshot of the blob images, from which they are rasterized.
pub struct Moz2dBlobRasterizer {
    pub workers: Arc<ThreadPool>,
    pub blob_commands: BlobCommands,
}

impl Moz2dBlobRasterizer {
    /// `job` is what `params` asks for, with the recording of the image.
    pub open spec fn is_job(&self, job: Job, params: BlobImageParams) -> bool {
        &&& job.request == params.request
        &&& job.descriptor == params.descriptor
        &&& job.dirty_rect == params.dirty_rect
        &&& (job.commands@, job.tile_size) == self.blob_commands@[params.request.key]
    }

    /// The image of `params` is known, and its pixels can be held in memory.
    pub open spec fn knows(&self, params: BlobImageParams) -> bool {
        &&& self.blob_commands@.contains_key(params.request.key)
        &&& params.descriptor.in_memory()
    }

    /// Looks up the recordings of the requests, one job for each request, in
    /// order.
    pub fn rasterize(&self, requests: &[BlobImageParams]) -> (jobs: Vec<Job>)
        requires
            forall|i: int|
                0 <= i < requests@.len() ==> self.blob_commands@.contains_key(
                    (#[trigger] requests@[i]).request.key,
                ),
        ensures
            jobs@.len() == requests@.len(),
            forall|i: int|
                0 <= i < requests@.len() ==> self.is_job(#[trigger] jobs@[i], requests@[i]),
            forall|i: int|
                #![trigger jobs@[i]]
                0 <= i < requests@.len() ==> {
                    &&& jobs@[i].request == requests@[i].request
                    &&& jobs@[i].descriptor == requests@[i].descriptor
                    &&& jobs@[i].dirty_rect == requests@[i].dirty_rect
                    &&& jobs@[i].commands@ == self.blob_commands@[requests@[i].request.key].0
                    &&& jobs@[i].tile_size == self.blob_commands@[requests@[i].request.key].1
                },
    {
        let mut jobs: Vec<Job> = Vec::new();
        let mut i: usize = 0;
        while i < requests.len()
            invariant
                i <= requests@.len(),
                jobs@.len() == i,
                forall|j: int|
                    0 <= j < requests@.len() ==> self.blob_commands@.contains_key(
                        (#[trigger] requests@[j]).request.key,
                    ),
                forall|j: int| 0 <= j < i ==> self.is_job(#[trigger] jobs@[j], requests@[j]),
            decreases requests@.len() - i,
        {
            let params = requests[i];
            if let Some((commands, tile_size)) = self.blob_commands.get(params.request.key) {
                jobs.push(
                    Job {
                        request: params.request,
                        descriptor: params.descriptor,
                        commands,
                        dirty_rect: params.dirty_rect,
                        tile_size,
                    },
                );
            }
            i += 1;
        }
        jobs
    }

    /// Tells whether all images are known and their pixels can be held in memory.
    pub fn can_rasterize(&self, requests: &[BlobImageParams]) -> (possible: bool)
        ensures
            possible == forall|i: int|
                0 <= i < requests@.len() ==> self.knows(#[trigger] requests@[i]),
            possible <==> forall|i: int|
                #![trigger requests@[i]]
                0 <= i < requests@.len() ==> self.blob_commands@.contains_key(
                    requests@[i].request.key,
                ) && requests@[i].descriptor.byte_count() <= u32::MAX
                    && requests@[i].descriptor.byte_count() <= isize::MAX,
    {
        let mut i: usize = 0;
        while i < requests.len()
            invariant
                i <= requests@.len(),
                forall|j: int| 0 <= j < i ==> self.knows(#[trigger] requests@[j]),
            decreases requests@.len() - i,
        {
            let params = requests[i];
            let known: bool = self.blob_commands.get(params.request.key).is_some();
            if !known || !params.descriptor.fits() {
                assert(!self.knows(requests@[i as int]));
                return false;
            }
            i += 1;
        }
        true
    }
}

} // verus!
