use image_stream::random_stream::RandomStream;
use image_stream::raster::{Pixel, PixelImage};

fn sample_image(w: u32, h: u32) -> PixelImage {
    let mut pixels = Vec::new();
    for y in 0..h {
        for x in 0..w {
            pixels.push(Pixel { r: x as u8, g: y as u8, b: (x * y) as u8, a: 200 });
        }
    }
    PixelImage::new(w, h, pixels).unwrap()
}

#[test]
fn random_steps_restore_the_image() {
    let stream = RandomStream::new(3, 5, 4);
    let picture = stream.to_data(&sample_image(7, 5));
    let mut current = stream.generate_empty(&picture);
    for step in 0..5 {
        let cs = stream.step(&picture, step);
        stream.merge(&mut current, &cs, step);
    }
    // the empty image has no alpha channel: the colours come back, made opaque
    let opaque: Vec<Pixel> = picture.pixels().iter().map(|p| Pixel { a: 255, ..*p }).collect();
    assert_eq!(current.pixels(), &opaque);
    assert!(!current.has_alpha());
}

#[test]
fn random_steps_restore_an_opaque_image_exactly() {
    let stream = RandomStream::new(11, 3, 2);
    let mut pixels = Vec::new();
    for i in 0..20u8 {
        pixels.push(Pixel { r: i, g: 3 * i, b: 255 - i, a: 255 });
    }
    let picture = PixelImage::new(5, 4, pixels).unwrap();
    let mut current = stream.generate_empty(&picture);
    for step in 0..3 {
        let cs = stream.step(&picture, step);
        stream.merge(&mut current, &cs, step);
    }
    assert_eq!(current.pixels(), picture.pixels());
}

#[test]
fn random_step_sizes_follow_the_schedule() {
    let stream = RandomStream::new(1, 5, 4);
    let picture = sample_image(7, 5);
    // 35 pixels, 7 per step
    assert_eq!(stream.step(&picture, 0).data.len(), 11);
    assert_eq!(stream.step(&picture, 1).data.len(), 7);
    assert_eq!(stream.step(&picture, 4).data.len(), 35 - 32);
}

#[test]
fn random_step_sends_pixels_of_the_image() {
    let stream = RandomStream::new(9, 2, 0);
    let picture = sample_image(4, 4);
    let cs = stream.step(&picture, 0);
    for p in cs.data.iter() {
        assert!(picture.pixels().contains(p));
    }
}

#[test]
fn generate_empty_is_opaque_black() {
    let stream = RandomStream::new(0, 3, 1);
    let empty = stream.generate_empty(&sample_image(3, 2));
    assert_eq!((empty.width(), empty.height()), (3, 2));
    assert!(empty.pixels().iter().all(|p| *p == Pixel { r: 0, g: 0, b: 0, a: 255 }));
    assert!(!empty.has_alpha());
    assert_eq!(stream.get_total_number_of_steps(), 3);
}

#[test]
fn to_image_copies() {
    let stream = RandomStream::new(0, 3, 1);
    let image = sample_image(3, 2);
    assert_eq!(stream.to_image(&image).pixels(), image.pixels());
}

#[test]
fn step_and_merge_for_order_follow_the_given_order() {
    let stream = RandomStream::new(0, 2, 0);
    let picture = sample_image(2, 2);
    let order = vec![3usize, 1, 0, 2];
    let first = stream.step_for_order(&picture, &order, 0);
    assert_eq!(first.data, vec![picture.get_pixel(1, 1), picture.get_pixel(1, 0)]);
    let mut current = stream.generate_empty(&picture);
    stream.merge_for_order(&mut current, &first, &order, 0);
    assert_eq!(current.get_pixel(1, 1), Pixel { a: 255, ..picture.get_pixel(1, 1) });
    assert_eq!(current.get_pixel(1, 0), Pixel { a: 255, ..picture.get_pixel(1, 0) });
    assert_eq!(current.get_pixel(0, 0), Pixel { r: 0, g: 0, b: 0, a: 255 });
}

#[test]
fn put_pixel_keeps_alpha_only_where_the_image_has_it() {
    let p = Pixel { r: 1, g: 2, b: 3, a: 4 };
    let mut rgb = PixelImage::new_black(2, 1);
    rgb.put_pixel(1, 0, p);
    assert_eq!(rgb.get_pixel(1, 0), Pixel { r: 1, g: 2, b: 3, a: 255 });
    let mut rgba = sample_image(2, 1);
    assert!(rgba.has_alpha());
    rgba.put_pixel(1, 0, p);
    assert_eq!(rgba.get_pixel(1, 0), p);
}

#[test]
fn streams_with_one_seed_share_the_pixel_order() {
    let a = RandomStream::new(5, 2, 0);
    let b = RandomStream::new(5, 4, 1);
    let picture = sample_image(4, 2);
    // step 0 of `a` with no minimum sends the first four positions of the order;
    // step 0 of `b` sends the first three of the same order
    let sa = a.step(&picture, 0);
    let sb = b.step(&picture, 0);
    assert_eq!(sa.data[..3], sb.data[..]);
}
