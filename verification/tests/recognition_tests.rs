use sfinder_gui_lib::recognition::{
    crop_to_rgb, detect_board_region, match_piece_color_with_palette, monitor_preview,
    palette_jstris, palette_samples, palette_tetr_io, palettes, recognize_field, recognize_field_simple,
    select_crop, RgbImage,
};
use sfinder_gui_lib::recognition::{board_frame, decode_rgb, SampleGrid};

fn image_from_fn(width: u32, height: u32, f: impl Fn(u32, u32) -> [u8; 3]) -> RgbImage {
    let mut data = Vec::with_capacity((width * height * 3) as usize);
    for y in 0..height {
        for x in 0..width {
            data.extend_from_slice(&f(x, y));
        }
    }
    RgbImage::from_raw(width, height, data).expect("pixel count")
}

/// The sampling grid measured as the application measures it: a cell is a
/// tenth of the width, sampled at its centre.
fn grid_for(img: &RgbImage) -> SampleGrid {
    let (width, height) = (img.width(), img.height());
    let (top, bottom) = match board_frame(img) {
        Ok(region) => region,
        Err(_) => return SampleGrid { xs: vec![0; 10], ys: vec![0] },
    };
    let cell_w = width as f64 / 10.0;
    let n_rows = (((bottom - top) as f64 / cell_w).round() as usize).clamp(1, 40);
    let xs = (0..10u32)
        .map(|col| {
            let x_left = col as f64 * cell_w;
            let x_right = (col + 1) as f64 * cell_w;
            (((x_left + x_right) / 2.0) as u32).min(width - 1)
        })
        .collect();
    let ys = (0..n_rows)
        .map(|row| ((top as f64 + (row as f64 + 0.5) * cell_w) as u32).min(height - 1))
        .collect();
    SampleGrid { xs, ys }
}

fn read(img: &RgbImage) -> Result<(String, String), String> {
    recognize_field(img, &palette_tetr_io(), &grid_for(img))
}

#[test]
fn test_jstris_color_matching() {
    let color_tests: &[(u8, u8, u8, char)] = &[
        (17, 149, 205, 'I'),
        (227, 159, 2, 'O'),
        (175, 41, 138, 'T'),
        (89, 177, 1, 'S'),
        (215, 15, 55, 'Z'),
        (33, 65, 198, 'J'),
        (227, 91, 2, 'L'),
        (153, 153, 153, 'X'),
        (10, 10, 10, '_'),
    ];
    let palette = palette_jstris();
    for (r, g, b, expected) in color_tests {
        let result = match_piece_color_with_palette(*r, *g, *b, &palette);
        assert_eq!(
            result, *expected,
            "rgb({},{},{}) → expected '{}', got '{}'",
            r, g, b, expected, result
        );
    }
}

#[test]
fn test_tetr_io_color_matching() {
    let color_tests: &[(u8, u8, u8, char)] = &[
        (52, 181, 133, 'I'),
        (179, 153, 50, 'O'),
        (164, 62, 154, 'T'),
        (131, 179, 50, 'S'),
        (180, 52, 59, 'Z'),
        (79, 62, 164, 'J'),
        (178, 98, 49, 'L'),
        (67, 67, 67, 'X'),
        (10, 10, 10, '_'),
    ];
    let palette = palette_tetr_io();
    for (r, g, b, expected) in color_tests {
        let result = match_piece_color_with_palette(*r, *g, *b, &palette);
        assert_eq!(
            result, *expected,
            "rgb({},{},{}) → expected '{}', got '{}'",
            r, g, b, expected, result
        );
    }
}

#[test]
fn color_matching_thresholds() {
    let palette = palette_tetr_io();
    // Dull and dark: empty; dull and mid-bright: garbage; dull and very bright: garbage.
    assert_eq!(match_piece_color_with_palette(60, 60, 60, &palette), '_');
    assert_eq!(match_piece_color_with_palette(100, 100, 100, &palette), 'X');
    assert_eq!(match_piece_color_with_palette(250, 250, 250, &palette), 'X');
    // Saturated but far from every piece colour: falls back on lightness.
    assert_eq!(match_piece_color_with_palette(255, 0, 255, &palette), 'X');
    assert_eq!(match_piece_color_with_palette(40, 0, 0, &palette), '_');
    // Close to a piece colour.
    assert_eq!(match_piece_color_with_palette(50, 178, 130, &palette), 'I');
    assert_eq!(palettes().len(), 2);
    assert_eq!(palettes()[1].name, "jstris");
}

#[test]
fn test_recognize_all_black_board() {
    let img = image_from_fn(10, 10, |_, _| [18, 18, 18]);
    let result = recognize_field_simple(&img, &palette_tetr_io(), &grid_for(&img));
    match result {
        Ok(field) => assert!(field.chars().all(|c| c == '_' || c == '\n'), "got: {}", field),
        Err(_) => {}
    }
}

fn garbage_board(empty: [u8; 3], bevel_edge: u8, bevel_inner: u8) -> RgbImage {
    let cell_size = 32u32;
    let cols = 10u32;
    let rows = 23u32;
    image_from_fn(cols * cell_size, rows * cell_size, |x, y| {
        let row = y / cell_size;
        let col = x / cell_size;
        let cx = x % cell_size;
        let cy = y % cell_size;
        if row < 6 {
            return empty;
        }
        if row < 19 {
            let bevel = if cx < 3 || cy < 3 || cx >= cell_size - 3 || cy >= cell_size - 3 {
                bevel_edge
            } else {
                bevel_inner
            };
            return [bevel, bevel, bevel + 5];
        }
        match row {
            22 => match col {
                0 => [52, 181, 133],
                1 => [180, 52, 59],
                2 => [180, 52, 59],
                3 => empty,
                4 => [164, 62, 154],
                5 => empty,
                6 => [178, 98, 49],
                7 => [178, 98, 49],
                8 => [164, 62, 154],
                9 => [164, 62, 154],
                _ => empty,
            },
            21 => match col {
                0 => [180, 52, 59],
                1 => [180, 52, 59],
                6 => [79, 62, 164],
                7 => [79, 62, 164],
                8 => [79, 62, 164],
                9 => [164, 62, 154],
                _ => empty,
            },
            20 => match col {
                6 => [79, 62, 164],
                8 => [179, 153, 50],
                9 => [179, 153, 50],
                _ => empty,
            },
            19 => match col {
                8 => [179, 153, 50],
                9 => [179, 153, 50],
                _ => empty,
            },
            _ => empty,
        }
    })
}

#[test]
fn test_recognize_garbage_rows() {
    // 10x23 board, cell_size=32; the palette detected for it is tetr.io's.
    let img = garbage_board([20, 20, 25], 100, 160);
    let (field, debug) = read(&img).expect("Recognition failed");
    println!("Debug: {}", debug);
    println!("Result:\n{}", field);

    let lines: Vec<&str> = field.lines().collect();
    assert!(lines.len() >= 16, "Expected >= 16 lines, got {}: {}", lines.len(), field);

    let max_x_count = lines.iter().filter(|l| l.chars().all(|c| c == 'X')).count();
    assert!(max_x_count >= 8, "Expected >= 8 all-X lines (garbage), got {}", max_x_count);
}

#[test]
fn test_garbage_rows() {
    let img = garbage_board([10, 10, 15], 80, 150);
    let (field, debug) = read(&img).expect("Recognition failed");
    println!("Debug: {}", debug);
    println!("Result:\n{}", field);

    let lines: Vec<&str> = field.lines().collect();
    assert!(lines.len() >= 16, "Expected >= 16 lines, got {}: {}", lines.len(), field);

    let max_x_count = lines.iter().filter(|l| l.chars().all(|c| c == 'X')).count();
    assert!(max_x_count >= 8, "Expected >= 8 all-X lines (garbage), got {}", max_x_count);
}

#[test]
fn garbage_board_reads_exactly() {
    let img = garbage_board([20, 20, 25], 100, 160);
    assert_eq!(detect_board_region(&img), (192, 736));
    let (field, debug) = read(&img).unwrap();
    let mut expected: Vec<&str> = vec!["XXXXXXXXXX"; 13];
    expected.push("________OO");
    expected.push("______J_OO");
    expected.push("ZZ____JJJT");
    expected.push("IZZ_T_LLTT");
    assert_eq!(field, expected.join("\n"));
    assert_eq!(debug, "palette=tetr.io, cell_w=32.0px, n_rows=17, trimmed=0..17");
}

#[test]
fn recognition_errors() {
    let small = image_from_fn(9, 30, |_, _| [200, 200, 200]);
    assert_eq!(read(&small).unwrap_err(), "Image too small");
    // Only one lit row: the board region is a single row high.
    let thin = image_from_fn(40, 40, |_, y| if y == 20 { [200, 200, 200] } else { [0, 0, 0] });
    assert_eq!(detect_board_region(&thin), (20, 21));
    assert_eq!(
        read(&thin).unwrap_err(),
        "Could not detect board region"
    );
    // Nothing lit at all: the whole picture is the region, and every cell is empty.
    let dark = image_from_fn(20, 40, |_, _| [5, 5, 5]);
    assert_eq!(detect_board_region(&dark), (0, 40));
    assert_eq!(read(&dark).unwrap_err(), "Board appears empty");
}

#[test]
fn region_of_short_picture_is_whole() {
    let img = image_from_fn(30, 9, |_, _| [0, 0, 0]);
    assert_eq!(detect_board_region(&img), (0, 9));
}

#[test]
fn raw_picture_needs_three_bytes_per_pixel() {
    assert!(RgbImage::from_raw(2, 2, vec![0; 12]).is_some());
    assert!(RgbImage::from_raw(2, 2, vec![0; 11]).is_none());
    let img = RgbImage::from_raw(2, 1, vec![1, 2, 3, 4, 5, 6]).unwrap();
    assert_eq!(img.get_pixel(1, 0), (4, 5, 6));
    assert_eq!((img.width(), img.height()), (2, 1));
}

#[test]
fn crop_keeps_colour_bytes() {
    // 3x2 picture, pixel (x, y) = (10x + y, 100 + x, 200 + y, 255).
    let mut rgba = Vec::new();
    for y in 0..2u8 {
        for x in 0..3u8 {
            rgba.extend_from_slice(&[10 * x + y, 100 + x, 200 + y, 255]);
        }
    }
    let img = crop_to_rgb(3, 2, &rgba, 1, 1, 5, 5);
    assert_eq!((img.width(), img.height()), (2, 1));
    assert_eq!(img.get_pixel(0, 0), (11, 101, 201));
    assert_eq!(img.get_pixel(1, 0), (21, 102, 201));
}

#[test]
fn selection_finds_monitor() {
    let monitors = [(0, 0, 1920u32, 1080u32), (1920, 0, 1280, 1024)];
    assert_eq!(select_crop(&monitors, 2000, 100, 500, 2000), Ok((1, 80, 100, 500, 924)));
    assert_eq!(select_crop(&monitors, 10, 20, 30, 40), Ok((0, 10, 20, 30, 40)));
    assert_eq!(
        select_crop(&monitors, 5000, 0, 1, 1).unwrap_err(),
        "Selection outside all captured monitors"
    );
    assert!(select_crop(&monitors, -1, 0, 1, 1).is_err());
}

#[test]
fn preview_is_png_data_url() {
    let rgba: Vec<u8> = (0..4 * 4 * 4).map(|i| (i * 7 % 256) as u8).collect();
    let info = monitor_preview(-1920, 0, 4, 4, &rgba).expect("encoding");
    assert_eq!((info.width, info.height, info.x, info.y), (2, 2, -1920, 0));
    // A PNG starts with the bytes 89 50 4E 47 0D 0A 1A 0A, which base64 writes as iVBORw0KGgo.
    assert!(info.data_url.starts_with("data:image/png;base64,iVBORw0KGgo"), "{}", info.data_url);
    assert!(info.data_url.len() > "data:image/png;base64,iVBORw0KGgo".len());
}

#[test]
fn skin_samples_are_vivid_pixels_of_lower_middle() {
    // Rows 6 and 7 of ten are sampled; only saturated mid-light pixels count.
    let img = image_from_fn(10, 10, |x, y| match (x, y) {
        (2, 6) => [52, 181, 133],
        (5, 7) => [180, 52, 59],
        (3, 7) => [250, 240, 245],
        (1, 2) => [164, 62, 154],
        _ => [120, 120, 120],
    });
    assert_eq!(palette_samples(&img), vec![(52, 181, 133), (180, 52, 59)]);
}

// The colour decision computed in double precision, the way the board
// recogniser has always decided it; the library must agree with it.
fn hsl(r: u8, g: u8, b: u8) -> (f64, f64) {
    let r = r as f64 / 255.0;
    let g = g as f64 / 255.0;
    let b = b as f64 / 255.0;
    let max = r.max(g).max(b);
    let min = r.min(g).min(b);
    let l = (max + min) / 2.0 * 100.0;
    if max == min {
        return (0.0, l);
    }
    let d = max - min;
    let s = if l > 50.0 { d / (2.0 - max - min) } else { d / (max + min) } * 100.0;
    (s, l)
}

fn yuv(r: u8, g: u8, b: u8) -> (f64, f64, f64) {
    let r = r as f64 / 255.0;
    let g = g as f64 / 255.0;
    let b = b as f64 / 255.0;
    (
        0.299 * r + 0.587 * g + 0.114 * b,
        -0.14713 * r - 0.28886 * g + 0.436 * b,
        0.615 * r - 0.51499 * g - 0.10001 * b,
    )
}

fn double_precision_colour(r: u8, g: u8, b: u8, colors: &[(u8, u8, u8, char)]) -> char {
    let (s, l) = hsl(r, g, b);
    let spread = r.max(g).max(b) - r.min(g).min(b);
    if s < 12.0 || spread < 15 {
        if l > 20.0 && l < 75.0 && spread < 25 && l > 30.0 {
            return 'X';
        }
        if l <= 25.0 {
            return '_';
        }
        return 'X';
    }
    let (y, u, v) = yuv(r, g, b);
    let mut best = '_';
    let mut best_dist = f64::MAX;
    for &(pr, pg, pb, pc) in colors {
        if pc == '_' || pc == 'X' {
            continue;
        }
        let (py, pu, pv) = yuv(pr, pg, pb);
        let (dy, du, dv) = (y - py, u - pu, v - pv);
        let d = (2.0 * dy * dy + du * du + dv * dv).sqrt();
        if d < best_dist {
            best_dist = d;
            best = pc;
        }
    }
    if best_dist < 0.3 {
        return best;
    }
    if l > 20.0 { 'X' } else { '_' }
}

fn check_agreement(r: u8, g: u8, b: u8) {
    for palette in palettes() {
        assert_eq!(
            match_piece_color_with_palette(r, g, b, &palette),
            double_precision_colour(r, g, b, &palette.colors),
            "rgb({},{},{}) in {}",
            r,
            g,
            b,
            palette.name
        );
    }
}

#[test]
fn colour_decisions_agree_with_double_precision() {
    // A lattice over the colour cube.
    for r in (0..=255u8).step_by(5) {
        for g in (0..=255u8).step_by(5) {
            for b in (0..=255u8).step_by(5) {
                check_agreement(r, g, b);
            }
        }
    }
    // Every colour whose extremes sit on a rounding boundary.
    let ties: &[(u8, u8)] = &[
        (78, 75), (79, 74), (82, 71), (83, 70), (86, 67), (87, 66), (90, 63), (94, 59), (98, 55),
        (102, 51), (106, 47), (110, 43), (114, 39), (118, 35), (132, 21), (133, 20), (140, 13),
        (141, 12), (148, 5), (149, 4), (42, 33), (84, 66), (145, 115), (167, 143), (178, 157),
        (211, 199), (222, 213),
    ];
    for &(hi, lo) in ties {
        for mid in lo..=hi {
            for (r, g, b) in [(hi, mid, lo), (hi, lo, mid), (mid, hi, lo), (lo, hi, mid), (mid, lo, hi), (lo, mid, hi)] {
                check_agreement(r, g, b);
            }
        }
    }
    // Colours nearly equidistant from two piece colours.
    for (r, g, b) in [(155, 166, 50), (104, 53, 168), (201, 100, 70), (227, 125, 2), (53, 163, 103)] {
        check_agreement(r, g, b);
    }
}

#[test]
fn boundary_colours_follow_double_precision() {
    // Saturation exactly 12%: double precision makes it dull.
    assert_eq!(match_piece_color_with_palette(84, 66, 66, &palette_tetr_io()), 'X');
    // Two piece colours at the same distance: double precision picks the later one.
    assert_eq!(match_piece_color_with_palette(155, 166, 50, &palette_tetr_io()), 'S');
    assert_eq!(match_piece_color_with_palette(227, 125, 2, &palette_jstris()), 'L');
}

#[test]
fn boundary_lightness_counts_as_lit() {
    // Lightness exactly 30%: double precision puts (78, 75, 75) above it.
    let img = image_from_fn(10, 10, |_, y| if y < 5 { [78, 75, 75] } else { [0, 0, 0] });
    assert_eq!(detect_board_region(&img), (0, 5));
}

#[test]
fn decoding_png_bytes() {
    let src = image::RgbImage::from_fn(3, 2, |x, y| image::Rgb([x as u8 * 10, y as u8 * 20, 7]));
    let mut bytes = std::io::Cursor::new(Vec::new());
    src.write_to(&mut bytes, image::ImageFormat::Png).unwrap();
    let img = decode_rgb(bytes.get_ref()).expect("decodes");
    assert_eq!((img.width(), img.height()), (3, 2));
    assert_eq!(img.get_pixel(2, 1), (20, 20, 7));
    assert!(decode_rgb(&[1, 2, 3, 4]).is_err());
}
