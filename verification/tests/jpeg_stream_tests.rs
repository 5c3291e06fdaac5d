use image_stream::client::Client;
use image_stream::jpeg_stream::{pair_code, JpegStream};
use image_stream::raster::{Pixel, PixelImage};
use image_stream::patch::writes_fit;
use image_stream::server::Server;
use image_stream::stream_strategy::Strategy;

/// A byte stream with a JPEG-like header: SOI, an APP0 marker, an SOS marker whose
/// segment length is 4, then `body` bytes of entropy data and EOI.
fn sample_stream(body: usize) -> Vec<u8> {
    let mut v = vec![0xFF, 0xD8, 0xFF, 0xE0, 0x00, 0x04, 0x11, 0x22, 0xFF, 0xDA, 0x00, 0x04, 0x33, 0x44];
    for i in 0..body {
        v.push((i % 200) as u8 + 1);
    }
    v.push(0xFF);
    v.push(0xD9);
    v
}

fn sample_image(w: u32, h: u32) -> PixelImage {
    let mut pixels = Vec::new();
    for y in 0..h {
        for x in 0..w {
            pixels.push(Pixel { r: (x * 37 % 256) as u8, g: (y * 53 % 256) as u8, b: ((x * y) % 256) as u8, a: 255 });
        }
    }
    PixelImage::new(w, h, pixels).unwrap()
}

#[test]
fn init_markers_has_the_kept_markers() {
    let markers = JpegStream::init_markers();
    assert_eq!(markers.len(), 25);
    for b in [0xD8u8, 0xC0, 0xC2, 0xC4, 0xDB, 0xDD, 0xDA, 0xD0, 0xD7, 0xE0, 0xE7, 0xFE, 0xD9] {
        assert!(markers.contains(&pair_code(0xFF, b)));
    }
    assert!(!markers.contains(&pair_code(0xFF, 0xE8)));
    assert!(!markers.contains(&pair_code(0xFF, 0x00)));
    assert!(!markers.contains(&pair_code(0xFE, 0xD8)));
}

#[test]
fn pair_code_puts_the_first_byte_high() {
    assert_eq!(pair_code(0xFF, 0xD8), 0xFFD8);
    assert_eq!(pair_code(0x01, 0x02), 0x0102);
}

#[test]
fn find_sos_marker_index_finds_the_first_sos() {
    let s = sample_stream(5);
    assert_eq!(JpegStream::find_sos_marker_index(&s), Some((8, 9)));
    assert_eq!(JpegStream::find_sos_marker_index(&[0xFF, 0xDA, 0xFF, 0xDA]), Some((0, 1)));
    assert_eq!(JpegStream::find_sos_marker_index(&[0x00, 0xFF, 0xD8]), None);
    assert_eq!(JpegStream::find_sos_marker_index(&[]), None);
    assert_eq!(JpegStream::find_sos_marker_index(&[0xDA, 0xFF]), None);
}

#[test]
fn get_index_until_entropy_adds_the_segment_length() {
    let s = sample_stream(5);
    // SOS marker's 0xDA at 9, length bytes 0x00 0x04: 9 + 1 + 4
    assert_eq!(JpegStream::get_index_until_entropy(&s), Some(14));
    let t = [0x00, 0xFF, 0xDA, 0x01, 0x02, 0x00];
    // 2 + 1 + 0x0102
    assert_eq!(JpegStream::get_index_until_entropy(&t), Some(3 + 0x0102));
}

#[test]
fn list_marker_idxs_lists_every_marker_in_order() {
    let stream = JpegStream::new(0, 10, 10);
    let s = sample_stream(5);
    let idxs = stream.list_marker_idxs(&s);
    let last = s.len() - 1;
    assert_eq!(idxs, vec![(0, 1), (2, 3), (8, 9), (last - 1, last)]);
}

#[test]
fn generate_empty_keeps_headers_and_markers_only() {
    let stream = JpegStream::new(0, 10, 10);
    let s = sample_stream(20);
    let empty = stream.generate_empty(&s);
    assert_eq!(empty.len(), s.len());
    // headers up to and including index 14 are kept
    assert_eq!(&empty[..15], &s[..15]);
    for k in 15..s.len() - 2 {
        assert_eq!(empty[k], 0);
    }
    assert_eq!(&empty[s.len() - 2..], &[0xFF, 0xD9]);
}

#[test]
fn get_total_number_of_steps_is_the_constructor_argument() {
    let stream = JpegStream::new(3, 7, 2);
    assert_eq!(stream.get_total_number_of_steps(), 7);
}

#[test]
fn step_sends_source_bytes_at_their_positions() {
    let stream = JpegStream::new(42, 4, 3);
    let s = sample_stream(40);
    // 41 bytes after index 14; 10 per step
    let first = stream.step(&s, 0);
    assert_eq!(first.data.len(), 13);
    let second = stream.step(&s, 1);
    assert_eq!(second.data.len(), 10);
    let last = stream.step(&s, 3);
    assert_eq!(last.data.len(), 41 - 33);
    for (idx, byte) in first.data.iter().chain(second.data.iter()).chain(last.data.iter()) {
        assert!(*idx >= 15 && *idx < s.len());
        assert_eq!(*byte, s[*idx]);
    }
    // the same step is the same every time
    assert_eq!(stream.step(&s, 1).data, second.data);
}

#[test]
fn steps_are_shuffled() {
    let stream = JpegStream::new(7, 1, 0);
    let s = sample_stream(100);
    let all = stream.step(&s, 0);
    let positions: Vec<usize> = all.data.iter().map(|(i, _)| *i).collect();
    let in_order: Vec<usize> = (15..s.len()).collect();
    assert_ne!(positions, in_order);
    let mut sorted = positions.clone();
    sorted.sort();
    assert_eq!(sorted, in_order);
}

#[test]
fn merging_all_steps_restores_the_data() {
    let stream = JpegStream::new(0, 10, 10);
    let s = sample_stream(123);
    let mut data = stream.generate_empty(&s);
    assert_ne!(data, s);
    for step in 0..10 {
        let cs = stream.step(&s, step);
        stream.merge(&mut data, &cs);
    }
    assert_eq!(data, s);
}

#[test]
fn merging_a_step_twice_changes_nothing() {
    let stream = JpegStream::new(5, 4, 2);
    let s = sample_stream(30);
    let mut data = stream.generate_empty(&s);
    let cs = stream.step(&s, 2);
    stream.merge(&mut data, &cs);
    let once = data.clone();
    stream.merge(&mut data, &cs);
    assert_eq!(data, once);
}

#[test]
fn merge_writes_the_given_bytes() {
    let stream = JpegStream::new(0, 1, 0);
    let mut data = vec![0u8; 5];
    let cs = image_stream::compression_step::CompressionStep { data: vec![(1usize, 9u8), (3, 7), (1, 4)] };
    stream.merge(&mut data, &cs);
    assert_eq!(data, vec![0, 4, 0, 7, 0]);
}

#[test]
fn marker_report_describes_each_marker() {
    let stream = JpegStream::new(0, 10, 10);
    let s = sample_stream(5);
    let report = stream.marker_report(&s);
    assert_eq!(report.len(), 4);
    assert_eq!((report[0].first, report[0].second, report[0].high, report[0].low), (0, 1, 0xFF, 0xD8));
    assert_eq!((report[0].next, report[0].next_2, report[0].previous_segment_length), (0xFF, 0xE0, 0));
    assert_eq!((report[1].first, report[1].second, report[1].previous_segment_length), (2, 3, 0));
    assert_eq!((report[2].first, report[2].second, report[2].previous_segment_length), (8, 9, 4));
    let n = s.len();
    assert_eq!((report[3].next, report[3].next_2), (0, 0));
    assert_eq!(report[3].previous_segment_length, n - 2 - 10);
}

#[test]
fn jpeg_round_trip_through_server_and_client() {
    let stream = JpegStream::new(0, 10, 10);
    let image = sample_image(64, 32);
    let server_data = stream.to_data(&image).unwrap();
    assert_eq!(&server_data[..2], &[0xFF, 0xD8]);
    let decoded = stream.to_image(&server_data).unwrap();
    assert_eq!((decoded.width(), decoded.height()), (64, 32));
    // a colour JPEG decodes to an RGB image: no alpha channel, every pixel opaque
    assert!(!decoded.has_alpha());
    assert!(decoded.pixels().iter().all(|p| p.a == 255));
    // decoding the same bytes twice gives the same image
    assert_eq!(stream.to_image(&server_data).unwrap().pixels(), decoded.pixels());
    let mut server = Server::new(image, &stream).unwrap();
    let empty = stream.generate_empty(&server_data);
    let mut client = Client::new(&stream, empty);
    for i in 0..10 {
        let cs = server.send_step(i);
        client.update_image(cs);
    }
    let shown = client.get_current_image().unwrap();
    assert_eq!(shown.pixels(), decoded.pixels());
}

#[test]
fn to_image_rejects_garbage() {
    let stream = JpegStream::new(0, 10, 10);
    assert_eq!(stream.to_image(&vec![1, 2, 3, 4]).err(), Some(image_stream::error::StreamError::Decode));
}

#[test]
fn to_data_rejects_an_empty_image() {
    let stream = JpegStream::new(0, 10, 10);
    let image = PixelImage::new(0, 0, Vec::new()).unwrap();
    assert_eq!(stream.to_data(&image).err(), Some(image_stream::error::StreamError::Encode));
}

#[test]
fn step_for_order_follows_the_given_order() {
    let stream = JpegStream::new(0, 2, 1);
    // headers end at 14; the 5 bytes after are 0x02..0x05 and EOI
    let s = sample_stream(4);
    // sent part: positions 15..20 (bytes 2, 3, 4, 0xFF, 0xD9)
    let order = vec![4usize, 0, 3, 1, 2];
    // per step 2, one more: step 0 sends order[0..3], step 1 sends order[3..5]
    let first = stream.step_for_order(&s, &order, 0);
    assert_eq!(first.data, vec![(19, 0xD9), (15, 2), (18, 0xFF)]);
    let second = stream.step_for_order(&s, &order, 1);
    assert_eq!(second.data, vec![(16, 3), (17, 4)]);
}

#[test]
fn has_headers_needs_sos_length_bytes_and_room() {
    assert!(JpegStream::has_headers(&sample_stream(3)));
    // SOS at the very end: no length bytes
    assert!(!JpegStream::has_headers(&[0xFF, 0xD8, 0xFF, 0xDA, 0x00]));
    // no SOS at all
    assert!(!JpegStream::has_headers(&[0xFF, 0xD8, 0xFF, 0xD9]));
    // the segment length points past the end
    assert!(!JpegStream::has_headers(&[0xFF, 0xDA, 0x00, 0x09, 0x01]));
    // the headers end exactly at the last byte
    assert!(JpegStream::has_headers(&[0xFF, 0xDA, 0x00, 0x01]));
    assert!(!JpegStream::has_headers(&[0xFF, 0xDA, 0x00, 0x02]));
}

#[test]
fn can_step_matches_the_schedule() {
    let s = sample_stream(4);
    // 5 bytes are sent; 2 steps of 2, 1 more each
    let stream = JpegStream::new(0, 2, 1);
    assert!(stream.can_step(&s, 0));
    assert!(stream.can_step(&s, 1));
    // step 2 is empty: it starts and ends at 5
    assert!(stream.can_step(&s, 2));
    // step 3 would start at 2 * 3 + 1 = 7, past its end at 5
    assert!(!stream.can_step(&s, 3));
    assert!(!JpegStream::new(0, 0, 1).can_step(&s, 0));
    assert!(!stream.can_step(&vec![1, 2, 3], 0));
    assert!(!stream.can_step(&s, usize::MAX));
}

#[test]
fn steps_send_every_byte_after_the_headers_once() {
    let s = sample_stream(23);
    // headers end at 14; 24 bytes are sent; 4 steps of 6, 1 more each: no gap
    let stream = JpegStream::new(7, 4, 1);
    let mut seen = vec![0usize; s.len()];
    for k in 0..4 {
        for (pos, byte) in stream.step(&s, k).data {
            assert_eq!(byte, s[pos]);
            seen[pos] += 1;
        }
    }
    for (pos, count) in seen.iter().enumerate() {
        assert_eq!(*count, if pos > 14 { 1 } else { 0 });
    }
    let mut client_data = stream.generate_empty(&s);
    for k in 0..4 {
        stream.merge(&mut client_data, &stream.step(&s, k));
    }
    assert_eq!(client_data, s);
}

#[test]
fn one_step_with_a_large_minimum_sends_everything() {
    let s = sample_stream(3);
    let stream = JpegStream::new(2, 1, 100);
    let cs = stream.step(&s, 0);
    assert_eq!(cs.data.len(), s.len() - 15);
    let mut client_data = stream.generate_empty(&s);
    stream.merge(&mut client_data, &cs);
    assert_eq!(client_data, s);
}

#[test]
fn streams_with_the_same_arguments_send_the_same_steps() {
    let s = sample_stream(30);
    let a = JpegStream::new(42, 3, 2);
    let b = JpegStream::new(42, 3, 2);
    for k in 0..3 {
        assert_eq!(a.step(&s, k).data, b.step(&s, k).data);
        assert_eq!(a.step(&s, k).data, a.step(&s, k).data);
    }
}

#[test]
fn writes_fit_checks_every_position() {
    assert!(writes_fit(&vec![(0usize, 1u8), (4, 2)], 5));
    assert!(!writes_fit(&vec![(0usize, 1u8), (5, 2)], 5));
    assert!(writes_fit::<u8>(&vec![], 0));
}

#[test]
fn a_new_client_shows_what_its_data_decodes_to() {
    let stream = JpegStream::new(0, 4, 2);
    let data = stream.to_data(&sample_image(16, 8)).unwrap();
    let client = Client::new(&stream, data.clone());
    let shown = client.get_current_image().unwrap();
    let direct = stream.to_image(&data).unwrap();
    assert_eq!((shown.width(), shown.height()), (16, 8));
    assert_eq!(shown.pixels(), direct.pixels());
}
