use image_stream::compression_step::{vec_heap_size_with_capacity, CompressionStep, HeapSize};
use image_stream::order::shuffled_order;
use image_stream::raster::{Pixel, PixelImage};
use image_stream::schedule::step_bounds;
use image_stream::server::Server;
use image_stream::client::Client;
use image_stream::jpeg_stream::JpegStream;
use image_stream::stream_strategy::Strategy;

#[test]
fn step_bounds_follow_the_formula() {
    // 105 items, 10 steps of 10, 10 more per step
    assert_eq!(step_bounds(105, 10, 10, 0), (0, 20));
    assert_eq!(step_bounds(105, 10, 10, 1), (20, 30));
    assert_eq!(step_bounds(105, 10, 10, 8), (90, 100));
    assert_eq!(step_bounds(105, 10, 10, 9), (100, 105));
    assert_eq!(step_bounds(3, 10, 0, 4), (0, 0));
}

#[test]
fn shuffled_order_is_a_permutation() {
    let order = shuffled_order(50, 11);
    let mut sorted = order.clone();
    sorted.sort();
    assert_eq!(sorted, (0..50).collect::<Vec<usize>>());
    assert_ne!(order, (0..50).collect::<Vec<usize>>());
    assert_eq!(shuffled_order(50, 11), order);
    assert!(shuffled_order(0, 3).is_empty());
}

#[test]
fn rgba_bytes_round_trip() {
    let pixels = vec![Pixel { r: 1, g: 2, b: 3, a: 4 }, Pixel { r: 5, g: 6, b: 7, a: 8 }];
    let image = PixelImage::new(2, 1, pixels.clone()).unwrap();
    let bytes = image.to_rgba_bytes();
    assert_eq!(bytes, vec![1, 2, 3, 4, 5, 6, 7, 8]);
    let back = PixelImage::from_rgba_bytes(2, 1, &bytes, true).unwrap();
    assert_eq!(back.pixels(), &pixels);
    assert!(back.has_alpha());
    let rgb = PixelImage::from_rgba_bytes(2, 1, &bytes, false).unwrap();
    assert_eq!(rgb.pixels(), &vec![Pixel { r: 1, g: 2, b: 3, a: 255 }, Pixel { r: 5, g: 6, b: 7, a: 255 }]);
    assert!(!rgb.has_alpha());
    assert!(PixelImage::from_rgba_bytes(2, 2, &bytes, true).is_none());
    assert!(PixelImage::new(3, 1, pixels).is_none());
}

#[test]
fn get_and_put_pixel_address_rows() {
    let mut image = PixelImage::new_black(3, 2);
    let p = Pixel { r: 9, g: 8, b: 7, a: 6 };
    image.put_pixel(2, 1, p);
    // a black image has no alpha channel: the pixel is stored opaque
    let stored = Pixel { a: 255, ..p };
    assert_eq!(image.get_pixel(2, 1), stored);
    assert_eq!(image.pixels()[5], stored);
    assert_eq!(image.get_pixel(1, 1), Pixel { r: 0, g: 0, b: 0, a: 255 });
    assert_eq!(image.duplicate().pixels(), image.pixels());
}

#[test]
fn heap_sizes() {
    assert_eq!(5u8.heap_size_in_bytes(), 0);
    assert_eq!(5u32.heap_size_in_bytes(), 0);
    assert_eq!((-5i32).heap_size_in_bytes(), 0);
    assert_eq!((1u8, 2u32, 3i32).heap_size_in_bytes(), 0);
    let v: Vec<(usize, u8)> = Vec::with_capacity(10);
    let cap = v.capacity();
    assert_eq!(v.heap_size_in_bytes(), cap * std::mem::size_of::<(usize, u8)>());
    let nested: Vec<Vec<u8>> = vec![Vec::with_capacity(8)];
    let inner_cap = nested[0].capacity();
    assert_eq!(nested.heap_size_in_bytes(), nested.capacity() * std::mem::size_of::<Vec<u8>>() + inner_cap);
    let step = CompressionStep { data: vec![(1usize, 2u8), (3, 4)] };
    assert_eq!(
        step.current_size_in_bytes(),
        std::mem::size_of::<CompressionStep<Vec<(usize, u8)>>>() + step.data.capacity() * std::mem::size_of::<(usize, u8)>()
    );
}

fn sample_image() -> PixelImage {
    let mut pixels = Vec::new();
    for i in 0..64u32 {
        pixels.push(Pixel { r: (i * 4) as u8, g: 128, b: (255 - i * 4) as u8, a: 255 });
    }
    PixelImage::new(8, 8, pixels).unwrap()
}

#[test]
fn send_step_caps_the_step_and_caches_it() {
    let stream = JpegStream::new(1, 4, 0);
    let mut server = Server::new(sample_image(), &stream).unwrap();
    let data = stream.to_data(&sample_image()).unwrap();
    let four = server.send_step(4).data.clone();
    assert_eq!(four, stream.step(&data, 4).data);
    assert_eq!(server.send_step(100).data, four);
    assert_eq!(server.send_step(2).data, stream.step(&data, 2).data);
}

#[test]
fn client_merges_every_update() {
    let stream = JpegStream::new(1, 4, 8);
    let data = stream.to_data(&sample_image()).unwrap();
    let mut client = Client::new(&stream, stream.generate_empty(&data));
    let cs = stream.step(&data, 0);
    client.update_image(&cs);
    let mut expected = stream.generate_empty(&data);
    stream.merge(&mut expected, &cs);
    let shown = client.get_current_image();
    let wanted = stream.to_image(&expected);
    assert_eq!(shown.is_ok(), wanted.is_ok());
    if let (Ok(a), Ok(b)) = (shown, wanted) {
        assert_eq!(a.pixels(), b.pixels());
    }
}

#[test]
fn capped_requests_past_the_limit_share_one_step() {
    let stream = JpegStream::new(3, 2, 0);
    let mut server = Server::new(sample_image(), &stream).unwrap();
    let data = stream.to_data(&sample_image()).unwrap();
    // limit max(2, 1) = 2: step 2, one past the last step 1
    let at_limit = server.send_step(2).data.clone();
    assert_eq!(server.send_step(7).data, at_limit);
    assert_eq!(at_limit, stream.step(&data, 2).data);
    assert_eq!(server.send_step(1).data, stream.step(&data, 1).data);
}

#[test]
fn triple_heap_size_adds_its_parts() {
    let t = (1i32, 2u32, vec![1u8, 2, 3]);
    let whole = t.heap_size_in_bytes();
    let parts = t.0.heap_size_in_bytes() + t.1.heap_size_in_bytes() + t.2.heap_size_in_bytes();
    assert_eq!(whole, parts);
}

#[test]
fn vec_heap_size_counts_the_capacity_not_the_length() {
    let v: Vec<u32> = vec![1, 2];
    assert_eq!(vec_heap_size_with_capacity(&v, 5), 20);
    assert_eq!(vec_heap_size_with_capacity(&v, 2), 8);
    let nested: Vec<Vec<u8>> = vec![Vec::with_capacity(8), Vec::new()];
    let inner = nested[0].capacity() + nested[1].capacity();
    assert_eq!(
        vec_heap_size_with_capacity(&nested, 4),
        4 * std::mem::size_of::<Vec<u8>>() + inner
    );
    let mut grown: Vec<u8> = Vec::with_capacity(16);
    grown.push(1);
    assert_eq!(grown.heap_size_in_bytes(), grown.capacity());
}
