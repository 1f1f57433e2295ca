//! What goes to the GPU and comes back from it.

use tt_splat_viewer::offscreen::{align_up, Readback};
use tt_splat_viewer::scene::{Background, InstanceRaw};
use tt_splat_viewer::upload::{
    composite_bytes, globals_bytes, instance_attributes, instance_bytes, split_bytes,
    INSTANCE_STRIDE,
};

fn bytes_of(words: &[u32]) -> Vec<u8> {
    words.iter().flat_map(|word| word.to_ne_bytes()).collect()
}

fn instance(first: u32) -> InstanceRaw {
    InstanceRaw {
        mu2d: [first, first + 1],
        half_extent: [first + 2, first + 3],
        conic: [first + 4, first + 5, first + 6],
        opacity: first + 7,
        color: [first + 8, first + 9, first + 10],
        depth: first + 11,
    }
}

#[test]
fn instances_lie_one_behind_the_other() {
    let bytes = instance_bytes(&[instance(0x0102_0300), instance(0x1000)]);
    let mut words: Vec<u32> = (0x0102_0300..0x0102_030c).collect();
    words.extend(0x1000..0x100c);
    assert_eq!(bytes, bytes_of(&words));
    assert_eq!(bytes.len() as u64, 2 * INSTANCE_STRIDE);
    assert_eq!(instance_bytes(&[]), Vec::<u8>::new());
}

#[test]
fn attributes_select_the_parts_of_an_instance() {
    let words: Vec<u32> = (0..12).collect();
    let parts: Vec<Vec<u32>> = instance_attributes()
        .iter()
        .map(|a| {
            let first = (a.offset / 4) as usize;
            words[first..first + a.numbers as usize].to_vec()
        })
        .collect();
    assert_eq!(parts, vec![vec![0, 1], vec![2, 3], vec![4, 5, 6], vec![7], vec![8, 9, 10]]);
    let locations: Vec<u32> = instance_attributes().iter().map(|a| a.location).collect();
    assert_eq!(locations, vec![0, 1, 2, 3, 4]);
}

#[test]
fn uniforms_take_four_words() {
    let size = [640f32.to_bits(), 360f32.to_bits()];
    assert_eq!(globals_bytes(size), bytes_of(&[size[0], size[1], 0, 0]));
    let bg = Background { w_b: 9, c_b: [1, 2, 0x0a0b_0c0d] };
    assert_eq!(composite_bytes(&bg), bytes_of(&[1, 2, 0x0a0b_0c0d, 9]));
    assert_eq!(split_bytes(640), bytes_of(&[640, 0, 0, 0]));
}

#[test]
fn rows_are_aligned() {
    assert_eq!(align_up(0, 256), 0);
    assert_eq!(align_up(1, 256), 256);
    assert_eq!(align_up(256, 256), 256);
    assert_eq!(align_up(257, 256), 512);
    assert_eq!(align_up(7, 1), 7);
    assert_eq!(align_up(u32::MAX - 3, 3), u32::MAX - 3);
}

#[test]
fn padding_is_taken_off() {
    let readback = Readback::new(3, 2, 8);
    assert_eq!(readback.padded_bpr, 16);
    assert_eq!(readback.size(), 32);
    let mapped: Vec<u8> = (0..32).collect();
    let mut expected: Vec<u8> = (0..12).collect();
    expected.extend(16..28);
    assert_eq!(readback.pixels(&mapped), expected);
}

#[test]
fn rows_without_padding_stay() {
    let readback = Readback::new(64, 3, 256);
    assert_eq!(readback.padded_bpr, 256);
    let mapped: Vec<u8> = (0..768u32).map(|i| i as u8).collect();
    assert_eq!(readback.pixels(&mapped), mapped);
}

#[test]
fn an_image_of_no_rows_has_no_pixels() {
    assert_eq!(Readback::new(5, 0, 256).pixels(&[]), Vec::<u8>::new());
}
