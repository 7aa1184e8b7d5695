use std::sync::Arc;

use moz2d_blob::bytes::ByteOrder;
use moz2d_blob::geometry::{Box2d, DeviceUintPoint, DeviceUintRect, DeviceUintSize};
use moz2d_blob::handler::Moz2dBlobImageHandler;
use moz2d_blob::keys::{FontInstanceKey, IdNamespace, ImageKey, TileOffset};
use moz2d_blob::merge::merge_blob_images;
use moz2d_blob::rasterizer::{
    BlobImageDescriptor, BlobImageParams, BlobImageRequest, ImageFormat, Job,
};
use moz2d_blob::writer::BlobWriter;
use rayon::{ThreadPool, ThreadPoolBuilder};

const LITTLE: ByteOrder = ByteOrder::Little;
const KEY: ImageKey = ImageKey(IdNamespace(1), 2);

fn workers() -> Arc<ThreadPool> {
    Arc::new(ThreadPoolBuilder::new().num_threads(1).build().unwrap())
}

fn handler() -> Moz2dBlobImageHandler {
    Moz2dBlobImageHandler::with_byte_order(workers(), LITTLE)
}

fn rect(x: u32, y: u32, width: u32, height: u32) -> DeviceUintRect {
    DeviceUintRect { origin: DeviceUintPoint { x, y }, size: DeviceUintSize { width, height } }
}

fn corners(x1: u32, y1: u32, x2: u32, y2: u32) -> Box2d {
    Box2d { x1, y1, x2, y2 }
}

fn extra(fonts: &[u32]) -> Vec<u8> {
    let mut bytes = fonts.len().to_le_bytes().to_vec();
    for n in fonts {
        bytes.extend_from_slice(&9u32.to_le_bytes());
        bytes.extend_from_slice(&n.to_le_bytes());
        bytes.extend_from_slice(&0u64.to_le_bytes());
    }
    bytes
}

fn blob(items: &[(Box2d, &[u32])], order: ByteOrder) -> Vec<u8> {
    let mut writer = BlobWriter::new(order);
    for (bounds, fonts) in items {
        let data = extra(fonts);
        writer.new_entry(data.len(), *bounds, &data);
    }
    writer.finish()
}

fn params(key: ImageKey, width: u32, height: u32, format: ImageFormat) -> BlobImageParams {
    BlobImageParams {
        request: BlobImageRequest { key, tile: None },
        descriptor: BlobImageDescriptor { size: DeviceUintSize { width, height }, format },
        dirty_rect: None,
    }
}

/// The recording and the tile size of an image, if it is known.
fn stored(handler: &Moz2dBlobImageHandler, key: ImageKey) -> Option<(Vec<u8>, Option<u16>)> {
    handler
        .create_blob_rasterizer()
        .blob_commands
        .get(key)
        .map(|(data, tiling)| (data.to_vec(), tiling))
}

#[test]
fn new_handler_takes_recordings_of_this_machine() {
    let mut data = vec![0; 2 * std::mem::size_of::<usize>() + 16];
    data.splice(0..0, [7, 7, 7]);
    data.extend_from_slice(&3usize.to_ne_bytes());
    let handler = Moz2dBlobImageHandler::new(workers());
    assert!(handler.can_add(&data));
    let native = if 1u16.to_ne_bytes() == [1, 0] { ByteOrder::Little } else { ByteOrder::Big };
    assert_eq!(handler.order(), native);
    assert_eq!(stored(&handler, KEY), None);
}

#[test]
fn added_image_is_known() {
    let mut handler = handler();
    let data = blob(&[(corners(0, 0, 1, 1), &[])], LITTLE);
    assert!(handler.can_add(&data));
    handler.add(KEY, Arc::new(data.clone()), Some(256));
    assert_eq!(stored(&handler, KEY), Some((data.clone(), Some(256))));
    assert_eq!(stored(&handler, ImageKey(IdNamespace(2), 1)), None);
    assert_eq!(stored(&handler, ImageKey(IdNamespace(1), 3)), None);
    assert_eq!(stored(&handler, ImageKey(IdNamespace(0), 2)), None);
    handler.add(KEY, Arc::new(data.clone()), None);
    assert_eq!(stored(&handler, KEY), Some((data, None)));
}

#[test]
fn image_without_an_index_is_not_added() {
    let handler = handler();
    assert!(!handler.can_add(&vec![]));
    assert!(!handler.can_add(&blob(&[], LITTLE)));
    assert!(!handler.can_add(&vec![0xff; 8]));
}

#[test]
fn update_merges_and_keeps_the_tiling() {
    let mut handler = handler();
    let old = blob(&[(corners(0, 0, 1, 1), &[1]), (corners(10, 10, 12, 12), &[2])], LITTLE);
    let new = blob(&[(corners(10, 10, 20, 20), &[3]), (corners(0, 0, 1, 1), &[])], LITTLE);
    handler.add(KEY, Arc::new(old.clone()), Some(64));
    let dirty = rect(10, 10, 10, 10);
    assert!(handler.can_update(KEY, &new, Some(dirty)));
    handler.update(KEY, Arc::new(new.clone()), Some(dirty));
    let merged = merge_blob_images(&old, &new, corners(10, 10, 20, 20), LITTLE);
    assert_eq!(
        merged,
        blob(&[(corners(10, 10, 20, 20), &[3]), (corners(0, 0, 1, 1), &[1])], LITTLE)
    );
    assert_eq!(stored(&handler, KEY), Some((merged, Some(64))));
}

#[test]
fn update_that_is_not_possible() {
    let mut handler = handler();
    let data = blob(&[(corners(0, 0, 1, 1), &[])], LITTLE);
    let dirty = rect(10, 10, 10, 10);
    // An unknown image.
    assert!(!handler.can_update(KEY, &data, Some(dirty)));
    handler.add(KEY, Arc::new(data.clone()), None);
    assert!(handler.can_update(KEY, &data, Some(dirty)));
    // No dirty rectangle, or one without edges.
    assert!(!handler.can_update(KEY, &data, None));
    assert!(!handler.can_update(KEY, &data, Some(rect(1, 0, u32::MAX, 0))));
    // An image that does not match.
    assert!(!handler.can_update(KEY, &blob(&[], LITTLE), Some(dirty)));
}

#[test]
fn deleted_image_is_forgotten() {
    let mut handler = handler();
    let other = ImageKey(IdNamespace(2), 2);
    let data = Arc::new(blob(&[(corners(0, 0, 1, 1), &[])], LITTLE));
    handler.add(KEY, data.clone(), None);
    handler.add(other, data.clone(), None);
    handler.delete(KEY);
    assert_eq!(stored(&handler, KEY), None);
    assert!(stored(&handler, other).is_some());
    handler.delete(KEY);
    assert!(stored(&handler, other).is_some());
}

#[test]
fn snapshot_does_not_change() {
    let mut handler = handler();
    let data = Arc::new(blob(&[(corners(0, 0, 1, 1), &[])], LITTLE));
    handler.add(KEY, data.clone(), None);
    let snapshot = handler.create_blob_rasterizer();
    handler.delete(KEY);
    assert_eq!(stored(&handler, KEY), None);
    let jobs = snapshot.rasterize(&[params(KEY, 1, 1, ImageFormat::R8)]);
    assert!(Arc::ptr_eq(&jobs[0].commands, &data));
    assert_eq!(snapshot.workers.current_num_threads(), 1);
}

#[test]
fn fonts_of_requests() {
    let mut handler = handler();
    let other = ImageKey(IdNamespace(2), 2);
    handler.add(KEY, Arc::new(blob(&[(corners(0, 0, 1, 1), &[4, 5, 4])], LITTLE)), None);
    handler.add(other, Arc::new(blob(&[(corners(0, 0, 1, 1), &[5])], LITTLE)), None);
    let requests = [
        params(other, 1, 1, ImageFormat::R8),
        params(KEY, 1, 1, ImageFormat::R8),
        params(other, 2, 2, ImageFormat::R8),
    ];
    assert!(handler.can_prepare_resources(&requests));
    let font = |n: u32| FontInstanceKey(IdNamespace(9), n);
    assert_eq!(
        handler.prepare_resources(&requests),
        vec![vec![font(5)], vec![font(4), font(5)], vec![font(5)]]
    );
    let unknown = [params(ImageKey(IdNamespace(7), 7), 1, 1, ImageFormat::R8)];
    assert!(!handler.can_prepare_resources(&unknown));
}

#[test]
fn image_with_broken_fonts_is_not_prepared() {
    let mut handler = handler();
    let mut writer = BlobWriter::new(LITTLE);
    writer.new_entry(0, corners(0, 0, 1, 1), b"no room for a count");
    handler.add(KEY, Arc::new(writer.finish()), None);
    assert!(!handler.can_prepare_resources(&[params(KEY, 1, 1, ImageFormat::R8)]));
}

#[test]
fn one_job_for_each_request() {
    let mut handler = handler();
    let data = Arc::new(blob(&[(corners(0, 0, 1, 1), &[])], LITTLE));
    handler.add(KEY, data.clone(), Some(128));
    let mut tiled = params(KEY, 3, 5, ImageFormat::BGRA8);
    tiled.request.tile = Some(TileOffset { x: 1, y: 2 });
    tiled.dirty_rect = Some(rect(1, 1, 1, 1));
    let requests = [params(KEY, 1, 1, ImageFormat::R8), tiled];
    let rasterizer = handler.create_blob_rasterizer();
    assert!(rasterizer.can_rasterize(&requests));
    let jobs = rasterizer.rasterize(&requests);
    assert_eq!(jobs.len(), 2);
    for (job, params) in jobs.iter().zip(requests.iter()) {
        assert_eq!(job.request, params.request);
        assert_eq!(job.descriptor, params.descriptor);
        assert_eq!(job.dirty_rect, params.dirty_rect);
        assert_eq!(job.tile_size, Some(128));
        assert!(Arc::ptr_eq(&job.commands, &data));
    }
}

#[test]
fn requests_that_cannot_be_met() {
    let mut handler = handler();
    let rasterizer = handler.create_blob_rasterizer();
    assert!(rasterizer.can_rasterize(&[]));
    assert!(!rasterizer.can_rasterize(&[params(KEY, 1, 1, ImageFormat::R8)]));
    handler.add(KEY, Arc::new(blob(&[(corners(0, 0, 1, 1), &[])], LITTLE)), None);
    let rasterizer = handler.create_blob_rasterizer();
    assert!(rasterizer.can_rasterize(&[params(KEY, u32::MAX, 1, ImageFormat::R8)]));
    assert!(!rasterizer.can_rasterize(&[params(KEY, u32::MAX, 1, ImageFormat::RG8)]));
    assert!(!rasterizer.can_rasterize(&[params(KEY, 0x1_0000, 0x1_0000, ImageFormat::R8)]));
    assert!(rasterizer.can_rasterize(&[params(KEY, 0, u32::MAX, ImageFormat::RGBAF32)]));
}

#[test]
fn bytes_of_an_image() {
    let size = |format| params(KEY, 3, 5, format).descriptor.buf_size();
    assert_eq!(size(ImageFormat::R8), 15);
    assert_eq!(size(ImageFormat::RG8), 30);
    assert_eq!(size(ImageFormat::BGRA8), 60);
    assert_eq!(size(ImageFormat::RGBAF32), 240);
    assert_eq!(size(ImageFormat::RGBAI32), 240);
}

#[test]
fn finished_job() {
    let job = |dirty_rect| Job {
        request: BlobImageRequest { key: KEY, tile: Some(TileOffset { x: 3, y: 4 }) },
        descriptor: BlobImageDescriptor {
            size: DeviceUintSize { width: 2, height: 3 },
            format: ImageFormat::R8,
        },
        commands: Arc::new(vec![]),
        dirty_rect,
        tile_size: None,
    };
    let output = job(None).new_output();
    assert_eq!(output, vec![0; 6]);
    let (request, image) = job(None).finish(vec![1, 2, 3]);
    assert_eq!(request, job(None).request);
    assert_eq!(image.rasterized_rect, rect(0, 0, 2, 3));
    assert_eq!(*image.data, vec![1, 2, 3]);
    let (_, image) = job(Some(rect(1, 1, 1, 2))).finish(output);
    assert_eq!(image.rasterized_rect, rect(1, 1, 1, 2));
}
