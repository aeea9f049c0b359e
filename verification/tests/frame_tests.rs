use ezviz::frame::decode;
use ezviz::frame::yuv420p_to_rgb;
use ezviz::frame::DecodeError;

fn uniform_sample(width: usize, height: usize, y: u8, u: u8, v: u8) -> Vec<u8> {
    let total = width * height;
    let mut sample = vec![y; total];
    sample.extend(vec![u; total / 4]);
    sample.extend(vec![v; total / 4]);
    sample
}

#[test]
fn mid_gray_sample_decodes_to_gray() {
    let sample = uniform_sample(4, 2, 128, 128, 128);
    let image = decode(&sample, 4, 2).unwrap();
    assert_eq!(image.width(), 4);
    assert_eq!(image.height(), 2);
    assert_eq!(image.as_raw().len(), 24);
    for x in 0..4 {
        for y in 0..2 {
            assert_eq!(image.pixel(x, y), Some((130, 130, 130)));
        }
    }
}

#[test]
fn black_sample_decodes_to_black() {
    let sample = uniform_sample(2, 2, 16, 128, 128);
    let pixels = yuv420p_to_rgb(&sample, 2, 2).unwrap();
    assert_eq!(pixels, vec![0u8; 12]);
}

#[test]
fn white_sample_decodes_to_white() {
    let sample = uniform_sample(2, 2, 235, 128, 128);
    let pixels = yuv420p_to_rgb(&sample, 2, 2).unwrap();
    assert_eq!(pixels, vec![254u8; 12]);
}

#[test]
fn full_scale_luma_is_clamped() {
    let sample = uniform_sample(2, 2, 255, 128, 128);
    let pixels = yuv420p_to_rgb(&sample, 2, 2).unwrap();
    assert_eq!(pixels, vec![255u8; 12]);
}

#[test]
fn wrong_length_is_malformed() {
    let sample = uniform_sample(4, 2, 128, 128, 128);
    assert_eq!(decode(&sample[..11], 4, 2).err(), Some(DecodeError::MalformedSample));
    let mut longer = sample.clone();
    longer.push(0);
    assert_eq!(decode(&longer, 4, 2).err(), Some(DecodeError::MalformedSample));
    assert_eq!(yuv420p_to_rgb(&[], 2, 2).err(), Some(DecodeError::MalformedSample));
}

#[test]
fn odd_dimensions_are_malformed() {
    assert_eq!(decode(&[0u8; 13], 3, 3).err(), Some(DecodeError::MalformedSample));
    assert_eq!(decode(&[0u8; 9], 2, 3).err(), Some(DecodeError::MalformedSample));
}

#[test]
fn empty_image_decodes() {
    let image = decode(&[], 0, 0).unwrap();
    assert_eq!(image.into_raw(), Vec::<u8>::new());
    assert!(decode(&[], 0, 0).unwrap().pixel(0, 0).is_none());
}

#[test]
fn oversized_dimensions_are_malformed() {
    assert_eq!(decode(&[], usize::MAX - 1, 2).err(), Some(DecodeError::MalformedSample));
}

#[test]
fn chroma_is_shared_by_blocks_of_four_pixels() {
    // 4x2 image: luma all 81, left block red-ish chroma, right block blue-ish.
    let mut sample = vec![81u8; 8];
    sample.extend([90u8, 240]);
    sample.extend([240u8, 110]);
    let image = decode(&sample, 4, 2).unwrap();
    // left block: Y=81, U=90, V=240
    let left = (
        ((1164 * 65 + 1596 * 112) / 1000) as u8,
        ((1164 * 65 + 391 * 38 - 813 * 112) / 1000) as u8,
        0u8,
    );
    assert_eq!(left, (254, 0, 0));
    for (x, y) in [(0, 0), (1, 0), (0, 1), (1, 1)] {
        assert_eq!(image.pixel(x, y), Some(left));
    }
    // right block: Y=81, U=240, V=110
    let right = (
        ((1164 * 65 - 1596 * 18) / 1000) as u8,
        ((1164 * 65 - 391 * 112 + 813 * 18) / 1000) as u8,
        255u8,
    );
    assert_eq!(right, (46, 46, 255));
    for (x, y) in [(2, 0), (3, 0), (2, 1), (3, 1)] {
        assert_eq!(image.pixel(x, y), Some(right));
    }
    assert_eq!(image.pixel(4, 0), None);
    assert_eq!(image.pixel(0, 2), None);
}

#[test]
fn camera_sized_frame_decodes() {
    let sample = uniform_sample(1280, 720, 16, 128, 128);
    assert_eq!(sample.len(), 1280 * 720 * 3 / 2);
    let image = decode(&sample, 1280, 720).unwrap();
    assert_eq!(image.as_raw().len(), 1280 * 720 * 3);
    assert_eq!(image.pixel(1279, 719), Some((0, 0, 0)));
}
