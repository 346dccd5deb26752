use image_palette::octree::OcTree;
use image_palette::palette::{colors_stats, rank};
use image_palette::quantize::quantize;
use image_palette::raster::{ColorType, ImageData, ImageError, Raster};
use image_palette::{load, load_with_maxcolor, HexError, Record, RGB};

fn rgb_raster(width: u32, height: u32, pixels: &[[u8; 3]]) -> Raster {
    let mut samples = Vec::new();
    for p in pixels {
        samples.push(p[0]);
        samples.push(p[1]);
        samples.push(p[2]);
    }
    Raster { color: ColorType::Rgb8, width, height, samples }
}

fn rgba_raster(width: u32, height: u32, pixels: &[[u8; 4]]) -> Raster {
    let mut samples = Vec::new();
    for p in pixels {
        samples.push(p[0]);
        samples.push(p[1]);
        samples.push(p[2]);
        samples.push(p[3]);
    }
    Raster { color: ColorType::Rgba8, width, height, samples }
}

fn pseudo_random_pixels(n: usize, mut seed: u64) -> Vec<RGB> {
    let mut pixels = Vec::new();
    for _ in 0..n {
        seed = seed.wrapping_mul(6364136223846793005).wrapping_add(1442695040888963407);
        let r = (seed >> 56) as u8;
        seed = seed.wrapping_mul(6364136223846793005).wrapping_add(1442695040888963407);
        let g = (seed >> 56) as u8;
        seed = seed.wrapping_mul(6364136223846793005).wrapping_add(1442695040888963407);
        let b = (seed >> 56) as u8;
        pixels.push(RGB::from(&[r, g, b]));
    }
    pixels
}

fn total(records: &[Record]) -> u64 {
    records.iter().map(|record| record.count() as u64).sum()
}

#[test]
fn test_add() {
    let image = rgb_raster(
        3,
        2,
        &[[250, 10, 10], [250, 10, 10], [10, 250, 10], [10, 10, 250], [10, 10, 250], [10, 10, 250]],
    );
    let (colors, width, height) = load(&image).unwrap();
    println!("total: {}", width * height);
    for color in colors {
        println!("{}: {}", color.rgb().to_hex(), color.count());
    }
}

#[test]
fn four_equal_pixels_give_one_record() {
    let image = rgb_raster(2, 2, &[[10, 20, 30]; 4]);
    let (colors, width, height) = load_with_maxcolor(&image, 16).unwrap();
    assert_eq!((width, height), (2, 2));
    assert_eq!(colors.len(), 1);
    assert_eq!(*colors[0].rgb(), RGB::from(&[10, 20, 30]));
    assert_eq!(colors[0].count(), 4);
}

#[test]
fn two_colors_twice_give_two_records() {
    let image = rgb_raster(2, 2, &[[255, 0, 0], [0, 255, 0], [255, 0, 0], [0, 255, 0]]);
    let (colors, _, _) = load_with_maxcolor(&image, 16).unwrap();
    assert_eq!(colors.len(), 2);
    assert_eq!(colors[0].count(), 2);
    assert_eq!(colors[1].count(), 2);
    let mut found: Vec<String> = colors.iter().map(|c| c.rgb().to_hex()).collect();
    found.sort();
    assert_eq!(found, vec!["#00FF00".to_string(), "#FF0000".to_string()]);
}

#[test]
fn ties_keep_the_order_of_the_octants() {
    let image = rgb_raster(2, 2, &[[255, 0, 0], [0, 255, 0], [255, 0, 0], [0, 255, 0]]);
    let (colors, _, _) = load_with_maxcolor(&image, 16).unwrap();
    assert_eq!(colors[0].rgb().to_hex(), "#00FF00");
    assert_eq!(colors[1].rgb().to_hex(), "#FF0000");
}

#[test]
fn thousand_random_pixels_stay_within_eight() {
    let pixels = pseudo_random_pixels(1000, 7);
    let colors = quantize(&pixels, 8);
    assert!(colors.len() <= 8);
    assert!(!colors.is_empty());
    assert_eq!(total(&colors), 1000);
    for pair in colors.windows(2) {
        assert!(pair[0].count() >= pair[1].count());
    }
}

#[test]
fn fully_transparent_image_gives_no_record() {
    let image = rgba_raster(2, 2, &[[1, 2, 3, 0], [4, 5, 6, 0], [7, 8, 9, 0], [10, 11, 12, 0]]);
    let data = ImageData::try_from(&image).unwrap();
    assert!(data.data.is_empty());
    let (colors, width, height) = load(&image).unwrap();
    assert!(colors.is_empty());
    assert_eq!((width, height), (2, 2));
    let tree = OcTree::new(16);
    assert_eq!(tree.leaf_num, 0);
}

#[test]
fn transparent_pixels_are_dropped_and_alpha_is_ignored() {
    let image = rgba_raster(3, 1, &[[9, 9, 9, 0], [200, 100, 50, 1], [200, 100, 50, 255]]);
    let data = ImageData::try_from(&image).unwrap();
    assert_eq!(data.data, vec![RGB::from(&[200, 100, 50]), RGB::from(&[200, 100, 50])]);
    assert_eq!((data.width, data.height), (3, 1));
    let (colors, _, _) = load(&image).unwrap();
    assert_eq!(colors.len(), 1);
    assert_eq!(colors[0].rgb().to_hex(), "#C86432");
    assert_eq!(colors[0].count(), 2);
}

#[test]
fn rgb_samples_become_pixels_in_order() {
    let image = rgb_raster(2, 1, &[[1, 2, 3], [4, 5, 6]]);
    let data = ImageData::from_rgb(&image);
    assert_eq!(data.data, vec![RGB::from(&[1, 2, 3]), RGB::from(&[4, 5, 6])]);
    let same = ImageData::try_from(&image).unwrap();
    assert_eq!(same.data, data.data);
}

#[test]
fn rgba_samples_become_opaque_pixels_in_order() {
    let image = rgba_raster(2, 2, &[[1, 2, 3, 9], [4, 5, 6, 0], [7, 8, 9, 255], [0, 0, 0, 1]]);
    let data = ImageData::from_rgba(&image);
    assert_eq!(
        data.data,
        vec![RGB::from(&[1, 2, 3]), RGB::from(&[7, 8, 9]), RGB::from(&[0, 0, 0])]
    );
}

#[test]
fn other_color_types_are_refused_with_their_type() {
    let image = Raster { color: ColorType::L16, width: 1, height: 1, samples: Vec::new() };
    assert_eq!(load(&image).unwrap_err(), ImageError::UnsupportedType(ColorType::L16));
    assert!(matches!(
        ImageData::try_from(&image),
        Err(ImageError::UnsupportedType(ColorType::L16))
    ));
    let gray = Raster { color: ColorType::L8, width: 1, height: 1, samples: vec![7] };
    assert_eq!(
        load_with_maxcolor(&gray, 4).unwrap_err(),
        ImageError::UnsupportedType(ColorType::L8)
    );
}

#[test]
fn a_budget_of_zero_is_refused() {
    let image = rgb_raster(1, 1, &[[1, 2, 3]]);
    assert_eq!(load_with_maxcolor(&image, 0).unwrap_err(), ImageError::InvalidConfiguration);
    let other = Raster { color: ColorType::L8, width: 1, height: 1, samples: vec![7] };
    assert_eq!(load_with_maxcolor(&other, 0).unwrap_err(), ImageError::InvalidConfiguration);
}

#[test]
fn load_uses_a_budget_of_sixteen() {
    let mut pixels = Vec::new();
    for i in 0..64u32 {
        pixels.push([(i * 4) as u8, (255 - i * 4) as u8, ((i * 37) % 256) as u8]);
    }
    let image = rgb_raster(8, 8, &pixels);
    let (colors, _, _) = load(&image).unwrap();
    let (same, _, _) = load_with_maxcolor(&image, 16).unwrap();
    assert!(colors.len() <= 16);
    assert_eq!(colors, same);
    assert_eq!(total(&colors), 64);
}

#[test]
fn the_mean_of_a_leaf_is_rounded_down() {
    let pixels = vec![RGB::from(&[10, 20, 30]), RGB::from(&[11, 21, 31]), RGB::from(&[11, 20, 31])];
    let colors = quantize(&pixels, 16);
    assert_eq!(colors.len(), 1);
    assert_eq!(*colors[0].rgb(), RGB::from(&[10, 20, 30]));
    assert_eq!(colors[0].count(), 3);
}

#[test]
fn the_lowest_bit_does_not_split_colors() {
    let pixels = vec![RGB::from(&[0, 0, 0]), RGB::from(&[1, 1, 1]), RGB::from(&[2, 0, 0])];
    let colors = quantize(&pixels, 16);
    assert_eq!(colors.len(), 2);
    assert_eq!(colors[0].count(), 2);
    assert_eq!(*colors[0].rgb(), RGB::from(&[0, 0, 0]));
    assert_eq!(colors[1].count(), 1);
    assert_eq!(*colors[1].rgb(), RGB::from(&[2, 0, 0]));
}

#[test]
fn a_small_budget_stops_at_the_children_of_the_root() {
    let pixels = vec![RGB::from(&[0, 0, 0]), RGB::from(&[255, 255, 255])];
    let colors = quantize(&pixels, 1);
    assert_eq!(colors.len(), 2);
    assert_eq!(total(&colors), 2);
}

#[test]
fn a_budget_of_one_merges_one_octant_into_one_color() {
    let pixels = vec![RGB::from(&[0, 0, 0]), RGB::from(&[100, 100, 100]), RGB::from(&[50, 20, 90])];
    let colors = quantize(&pixels, 1);
    assert_eq!(colors.len(), 1);
    assert_eq!(*colors[0].rgb(), RGB::from(&[50, 40, 63]));
    assert_eq!(colors[0].count(), 3);
}

#[test]
fn reduction_merges_the_branch_registered_last() {
    let mut tree = OcTree::new(2);
    tree.add_color(RGB::from(&[0, 0, 0]));
    tree.add_color(RGB::from(&[0, 0, 2]));
    tree.add_color(RGB::from(&[255, 255, 255]));
    tree.add_color(RGB::from(&[255, 255, 253]));
    assert_eq!(tree.leaf_num, 4);
    assert_eq!(tree.to_reduce[6].len(), 2);
    assert!(tree.reduce_tree());
    assert_eq!(tree.leaf_num, 3);
    assert_eq!(tree.to_reduce[6], vec![RGB::from(&[0, 0, 0])]);
    let mut map = Vec::new();
    colors_stats(&tree.root, 0, &mut map);
    assert_eq!(
        map,
        vec![
            Record { rgb: RGB::from(&[0, 0, 0]), count: 1 },
            Record { rgb: RGB::from(&[0, 0, 2]), count: 1 },
            Record { rgb: RGB::from(&[255, 255, 254]), count: 2 },
        ]
    );
}

#[test]
fn insertion_registers_the_new_branches_and_counts_the_new_leaf() {
    let mut tree = OcTree::new(16);
    assert_eq!(tree.leaf_num, 0);
    tree.add_color(RGB::from(&[10, 20, 30]));
    assert_eq!(tree.leaf_num, 1);
    assert_eq!(tree.to_reduce[0].len(), 0);
    assert_eq!(tree.to_reduce[7].len(), 0);
    for level in 1..7 {
        assert_eq!(tree.to_reduce[level], vec![RGB::from(&[10, 20, 30])]);
    }
    tree.add_color(RGB::from(&[10, 20, 30]));
    assert_eq!(tree.leaf_num, 1);
    for level in 1..7 {
        assert_eq!(tree.to_reduce[level].len(), 1);
    }
    tree.add_color(RGB::from(&[10, 20, 28]));
    assert_eq!(tree.leaf_num, 2);
    for level in 1..7 {
        assert_eq!(tree.to_reduce[level].len(), 1);
    }
    tree.add_color(RGB::from(&[10, 20, 24]));
    assert_eq!(tree.leaf_num, 3);
    for level in 1..6 {
        assert_eq!(tree.to_reduce[level].len(), 1);
    }
    assert_eq!(
        tree.to_reduce[6],
        vec![RGB::from(&[10, 20, 30]), RGB::from(&[10, 20, 24])]
    );
}

#[test]
fn reduction_without_a_candidate_changes_nothing() {
    let mut tree = OcTree::new(4);
    assert!(!tree.reduce_tree());
    assert_eq!(tree.leaf_num, 0);
    tree.add_color(RGB::from(&[1, 2, 3]));
    for _ in 0..6 {
        assert!(tree.reduce_tree());
        assert_eq!(tree.leaf_num, 1);
    }
    assert!(!tree.reduce_tree());
    assert_eq!(tree.leaf_num, 1);
    let mut map = Vec::new();
    colors_stats(&tree.root, 0, &mut map);
    assert_eq!(map, vec![Record { rgb: RGB::from(&[1, 2, 3]), count: 1 }]);
}

#[test]
fn leaves_of_one_mean_color_fold_into_one_record() {
    let mut tree = OcTree::new(16);
    for _ in 0..3 {
        tree.add_color(RGB::from(&[8, 8, 8]));
    }
    let mut map = vec![Record { rgb: RGB::from(&[8, 8, 8]), count: 5 }];
    colors_stats(&tree.root, 0, &mut map);
    assert_eq!(map, vec![Record { rgb: RGB::from(&[8, 8, 8]), count: 8 }]);
}

#[test]
fn ranking_is_descending_and_stable() {
    let a = Record { rgb: RGB::from(&[1, 0, 0]), count: 2 };
    let b = Record { rgb: RGB::from(&[2, 0, 0]), count: 5 };
    let c = Record { rgb: RGB::from(&[3, 0, 0]), count: 2 };
    let d = Record { rgb: RGB::from(&[4, 0, 0]), count: 9 };
    let e = Record { rgb: RGB::from(&[5, 0, 0]), count: 5 };
    assert_eq!(rank(&vec![a, b, c, d, e]), vec![d, b, e, a, c]);
    assert_eq!(rank(&Vec::new()), Vec::new());
}

#[test]
fn counts_are_conserved_for_every_budget() {
    let pixels = pseudo_random_pixels(300, 99);
    for budget in [1u32, 2, 3, 7, 8, 9, 16, 64, 1000] {
        let colors = quantize(&pixels, budget);
        assert_eq!(total(&colors), 300);
        assert!(colors.len() as u32 <= budget.max(8));
        if budget >= 8 {
            assert!(colors.len() as u32 <= budget);
        }
        for pair in colors.windows(2) {
            assert!(pair[0].count() >= pair[1].count());
        }
        for (i, first) in colors.iter().enumerate() {
            for second in &colors[i + 1..] {
                assert_ne!(first.rgb(), second.rgb());
            }
        }
    }
}

#[test]
fn running_twice_gives_the_same_palette() {
    let pixels = pseudo_random_pixels(500, 3);
    let first = quantize(&pixels, 12);
    let second = quantize(&pixels, 12);
    assert_eq!(first, second);
    let other = quantize(&pseudo_random_pixels(10, 4), 12);
    assert_eq!(total(&other), 10);
    assert_eq!(quantize(&pixels, 12), first);
}

#[test]
fn no_pixels_give_no_record() {
    assert!(quantize(&Vec::new(), 16).is_empty());
    let image = Raster { color: ColorType::Rgb8, width: 0, height: 0, samples: Vec::new() };
    let (colors, width, height) = load(&image).unwrap();
    assert!(colors.is_empty());
    assert_eq!((width, height), (0, 0));
}

#[test]
fn hex_text_has_two_upper_case_digits_for_each_channel() {
    assert_eq!(RGB::from(&[0, 0, 0]).to_hex(), "#000000");
    assert_eq!(RGB::from(&[255, 255, 255]).to_hex(), "#FFFFFF");
    assert_eq!(RGB::from(&[1, 35, 69]).to_hex(), "#012345");
    assert_eq!(RGB::from(&[103, 137, 171]).to_hex(), "#6789AB");
    assert_eq!(RGB::from(&[205, 239, 10]).to_hex(), "#CDEF0A");
}

#[test]
fn a_color_is_made_of_red_green_blue_in_turn() {
    let c = RGB::from(&[1, 2, 3]);
    assert_eq!((c.r, c.g, c.b), (1, 2, 3));
    let record = Record { rgb: c, count: 7 };
    assert_eq!(*record.rgb(), c);
    assert_eq!(record.count(), 7);
}

#[test]
fn hex_text_is_read_back() {
    assert_eq!(RGB::from_hex("#012345"), Ok(RGB::from(&[1, 35, 69])));
    assert_eq!(RGB::from_hex("#CDEF0A"), Ok(RGB::from(&[205, 239, 10])));
    assert_eq!(RGB::from_hex("#cdef0a"), Ok(RGB::from(&[205, 239, 10])));
    assert_eq!("#FFFFFF".parse::<RGB>(), Ok(RGB::from(&[255, 255, 255])));
    assert_eq!("#000000".parse::<RGB>(), Ok(RGB::from(&[0, 0, 0])));
    for r in [0u8, 9, 10, 15, 16, 127, 128, 255] {
        let c = RGB::from(&[r, 255 - r, r / 2]);
        assert_eq!(c.to_hex().parse::<RGB>(), Ok(c));
    }
}

#[test]
fn the_first_byte_and_the_tail_of_a_hex_text_are_not_read() {
    assert_eq!(RGB::from_hex("x102030"), Ok(RGB::from(&[16, 32, 48])));
    assert_eq!(RGB::from_hex("#102030ff and more"), Ok(RGB::from(&[16, 32, 48])));
    assert_eq!(RGB::from_hex("#102030\u{e9}"), Ok(RGB::from(&[16, 32, 48])));
}

#[test]
fn a_plus_sign_may_stand_for_the_high_digit() {
    assert_eq!(RGB::from_hex("#+F+0+a"), Ok(RGB::from(&[15, 0, 10])));
    assert_eq!(RGB::from_hex("#++0000"), Err(HexError::InvalidDigit));
    assert_eq!(RGB::from_hex("#F+0000"), Err(HexError::InvalidDigit));
    assert_eq!(RGB::from_hex("#-F0000"), Err(HexError::InvalidDigit));
}

#[test]
fn a_text_that_spells_no_color_is_refused() {
    assert_eq!(RGB::from_hex(""), Err(HexError::TooShort));
    assert_eq!(RGB::from_hex("#12345"), Err(HexError::TooShort));
    assert_eq!("#FFF".parse::<RGB>(), Err(HexError::TooShort));
    assert_eq!(RGB::from_hex("#12345G"), Err(HexError::InvalidDigit));
    assert_eq!(RGB::from_hex("#g00000"), Err(HexError::InvalidDigit));
    assert_eq!(RGB::from_hex("#00 000"), Err(HexError::InvalidDigit));
    assert_eq!(RGB::from_hex("#0000\u{e9}"), Err(HexError::InvalidDigit));
    assert_eq!("# 12345".parse::<RGB>(), Err(HexError::InvalidDigit));
}

#[test]
fn lab_values_come_from_the_channels() {
    let lab = RGB::from(&[240, 33, 95]).to_lab();
    assert!((lab.l - 52.334686).abs() < 0.001);
    assert!((lab.a - 75.55157).abs() < 0.001);
    assert!((lab.b - 19.995684).abs() < 0.001);
    let black = RGB::from(&[0, 0, 0]).to_lab();
    assert!(black.l.abs() < 0.001 && black.a.abs() < 0.001 && black.b.abs() < 0.001);
    assert_eq!(RGB::from(&[1, 2, 3]).to_lab(), lab::Lab::from_rgb(&[1, 2, 3]));
}

#[test]
fn a_small_budget_is_kept_when_the_pixels_fall_into_few_octants() {
    let mut pixels = Vec::new();
    for i in 0..100u32 {
        pixels.push(RGB::from(&[(i % 128) as u8, ((i * 7) % 128) as u8, ((i * 13) % 128) as u8]));
    }
    for budget in [1u32, 2, 5] {
        let colors = quantize(&pixels, budget);
        assert_eq!(colors.len(), 1);
        assert_eq!(total(&colors), 100);
    }
    for i in 0..50u32 {
        pixels.push(RGB::from(&[200, (i % 100) as u8, 255 - i as u8]));
    }
    assert_eq!(quantize(&pixels, 1).len(), 2);
    assert_eq!(quantize(&pixels, 2).len(), 2);
    let three = quantize(&pixels, 3);
    assert!(three.len() <= 3);
    assert_eq!(total(&three), 150);
}
