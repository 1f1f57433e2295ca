//! Reading `.ply` files.

use tt_splat_viewer::ply::body::Row;
use tt_splat_viewer::ply::error::{expected_size, ErrorKind, PlyError};
use tt_splat_viewer::ply::header::{
    find_header_end, read_header, scan_header, type_size, Property,
};
use tt_splat_viewer::ply::layout::{required_name, Layout};
use tt_splat_viewer::ply::{read_body, split_rows, Ply};
use tt_splat_viewer::scene::{parse_ply, Gaussian};

const NAMES: [&str; 14] = [
    "x", "y", "z", "scale_0", "scale_1", "scale_2", "rot_0", "rot_1", "rot_2", "rot_3", "f_dc_0",
    "f_dc_1", "f_dc_2", "opacity",
];

fn chars(text: &str) -> Vec<char> {
    text.chars().collect()
}

fn bits(number: f32) -> u32 {
    number.to_bits()
}

/// A header with these properties, all of type `float`.
fn float_header(format: &str, count: usize, names: &[String]) -> String {
    let mut text = format!("ply\nformat {format} 1.0\ncomment made by hand\nelement vertex {count}\n");
    for name in names {
        text.push_str(&format!("property float {name}\n"));
    }
    text.push_str("end_header\n");
    text
}

fn required_names() -> Vec<String> {
    NAMES.iter().map(|name| name.to_string()).collect()
}

/// A binary file with one record for each list of numbers.
fn binary_file(names: &[String], records: &[Vec<f32>]) -> Vec<u8> {
    let mut bytes = float_header("binary_little_endian", records.len(), names).into_bytes();
    for record in records {
        for number in record {
            bytes.extend_from_slice(&number.to_le_bytes());
        }
    }
    bytes
}

fn gaussians(bytes: &[u8]) -> Vec<Gaussian> {
    match parse_ply(bytes) {
        Ok(Ply::Gaussians(gaussians)) => gaussians,
        Ok(Ply::Text(_)) => panic!("a text body"),
        Err(error) => panic!("{}", error.message()),
    }
}

fn error(bytes: &[u8]) -> PlyError {
    match parse_ply(bytes) {
        Ok(_) => panic!("no error"),
        Err(error) => error,
    }
}

/// Reads the words of a text body as numbers.
fn text_gaussians(bytes: &[u8]) -> Option<Vec<Gaussian>> {
    match parse_ply(bytes) {
        Ok(Ply::Text(text)) => {
            let readings: Vec<Vec<Option<u32>>> = text
                .rows
                .iter()
                .map(|row| row.iter().map(|w| w.parse::<f32>().ok().map(f32::to_bits)).collect())
                .collect();
            if text.complete(&readings) {
                Some(text.gaussians(&readings))
            } else {
                None
            }
        }
        Ok(Ply::Gaussians(_)) => panic!("a binary body"),
        Err(error) => panic!("{}", error.message()),
    }
}

fn numbers_from(first: f32) -> Vec<f32> {
    (0..14).map(|i| first + i as f32).collect()
}

#[test]
fn binary_records_are_read_by_name() {
    let found = gaussians(&binary_file(&required_names(), &[numbers_from(1.0), numbers_from(-7.5)]));
    assert_eq!(found.len(), 2);
    assert_eq!(found[0].mean, [bits(1.0), bits(2.0), bits(3.0)]);
    assert_eq!(found[0].log_scale, [bits(4.0), bits(5.0), bits(6.0)]);
    assert_eq!(found[0].quat, [bits(7.0), bits(8.0), bits(9.0), bits(10.0)]);
    assert_eq!(found[0].color_dc, [bits(11.0), bits(12.0), bits(13.0)]);
    assert_eq!(found[0].opacity_raw, bits(14.0));
    assert_eq!(found[0].sh, None);
    assert_eq!(found[1].mean, [bits(-7.5), bits(-6.5), bits(-5.5)]);
    assert_eq!(found[1].opacity_raw, bits(5.5));
}

#[test]
fn the_order_of_the_properties_does_not_matter() {
    let mut names = required_names();
    names.reverse();
    let mut record = numbers_from(1.0);
    record.reverse();
    let plain = gaussians(&binary_file(&required_names(), &[numbers_from(1.0)]));
    assert_eq!(gaussians(&binary_file(&names, &[record])), plain);
}

#[test]
fn normals_and_other_properties_are_skipped() {
    let mut names = required_names();
    names.insert(3, "nx".to_string());
    names.insert(4, "ny".to_string());
    names.push("semantic".to_string());
    let mut record = numbers_from(1.0);
    record.insert(3, 99.0);
    record.insert(4, f32::NAN);
    record.push(-1.0);
    let plain = gaussians(&binary_file(&required_names(), &[numbers_from(1.0)]));
    assert_eq!(gaussians(&binary_file(&names, &[record])), plain);
}

#[test]
fn the_first_of_two_properties_of_a_name_counts() {
    let mut names = required_names();
    names.push("x".to_string());
    let mut record = numbers_from(1.0);
    record.push(50.0);
    assert_eq!(gaussians(&binary_file(&names, &[record]))[0].mean[0], bits(1.0));
}

#[test]
fn bits_of_a_nan_are_kept() {
    let mut bytes = float_header("binary_little_endian", 1, &required_names()).into_bytes();
    bytes.extend_from_slice(&0x7fc0_1234u32.to_le_bytes());
    bytes.extend_from_slice(&[0; 52]);
    assert_eq!(gaussians(&bytes)[0].mean, [0x7fc0_1234, 0, 0]);
}

#[test]
fn trailing_bytes_are_ignored() {
    let mut bytes = binary_file(&required_names(), &[numbers_from(1.0)]);
    let plain = gaussians(&bytes);
    bytes.extend_from_slice(b"end_header\n and more");
    assert_eq!(gaussians(&bytes), plain);
}

#[test]
fn no_vertices_are_no_error() {
    assert_eq!(gaussians(&binary_file(&required_names(), &[])).len(), 0);
}

#[test]
fn a_count_that_is_no_number_is_zero() {
    let header = float_header("binary_little_endian", 3, &required_names())
        .replace("element vertex 3", "element vertex many");
    assert_eq!(gaussians(header.as_bytes()).len(), 0);
}

#[test]
fn properties_of_other_elements_do_not_count() {
    let mut bytes = Vec::new();
    let header = float_header("binary_little_endian", 1, &required_names());
    let header = header.replace(
        "element vertex 1\n",
        "element camera 1\nproperty double fov\nproperty float x\nelement vertex 1\n",
    );
    let header = header.replace(
        "end_header\n",
        "element face 2\nproperty list uchar int vertex_indices\nproperty float quality\nend_header\n",
    );
    bytes.extend_from_slice(header.as_bytes());
    for number in numbers_from(1.0) {
        bytes.extend_from_slice(&number.to_le_bytes());
    }
    assert_eq!(gaussians(&bytes)[0].mean[0], bits(1.0));
}

#[test]
fn wider_and_narrower_properties_move_what_follows() {
    let header = float_header("binary_little_endian", 1, &required_names()).replace(
        "property float x\n",
        "property uchar flag\nproperty half h\nproperty double d\nproperty float x\n",
    );
    let mut bytes = header.into_bytes();
    bytes.extend_from_slice(&[7; 11]);
    for number in numbers_from(1.0) {
        bytes.extend_from_slice(&number.to_le_bytes());
    }
    assert_eq!(gaussians(&bytes)[0].mean, [bits(1.0), bits(2.0), bits(3.0)]);
}

fn names_with_rest(order: &[usize]) -> Vec<String> {
    let mut names = required_names();
    for k in order {
        names.push(format!("f_rest_{k}"));
    }
    names
}

#[test]
fn all_coefficients_up_to_degree_three_go_by_number() {
    let order: Vec<usize> = (0..45).rev().collect();
    let names = names_with_rest(&order);
    let mut record = numbers_from(1.0);
    for k in &order {
        record.push(100.0 + *k as f32);
    }
    let sh = gaussians(&binary_file(&names, &[record]))[0].sh.expect("coefficients");
    for k in 0..45 {
        assert_eq!(sh[k], bits(100.0 + k as f32));
    }
}

#[test]
fn fewer_coefficients_leave_zeros() {
    let order: Vec<usize> = (0..9).collect();
    let names = names_with_rest(&order);
    let mut record = numbers_from(1.0);
    for k in 0..9 {
        record.push(100.0 + k as f32);
    }
    let sh = gaussians(&binary_file(&names, &[record]))[0].sh.expect("coefficients");
    for channel in 0..3 {
        for j in 0..15 {
            let expected = if j < 3 { bits(100.0 + (channel * 3 + j) as f32) } else { 0 };
            assert_eq!(sh[channel * 15 + j], expected);
        }
    }
}

#[test]
fn more_coefficients_than_degree_three_are_cut() {
    let order: Vec<usize> = (0..72).collect();
    let names = names_with_rest(&order);
    let mut record = numbers_from(1.0);
    for k in 0..72 {
        record.push(100.0 + k as f32);
    }
    let sh = gaussians(&binary_file(&names, &[record]))[0].sh.expect("coefficients");
    assert_eq!(sh[0], bits(100.0));
    assert_eq!(sh[14], bits(114.0));
    assert_eq!(sh[15], bits(124.0));
    assert_eq!(sh[44], bits(162.0));
}

#[test]
fn coefficients_that_do_not_divide_by_three_are_not_used() {
    let names = names_with_rest(&[0, 1, 2, 3]);
    let mut record = numbers_from(1.0);
    record.extend_from_slice(&[1.0, 2.0, 3.0, 4.0]);
    assert_eq!(gaussians(&binary_file(&names, &[record]))[0].sh, None);
}

#[test]
fn a_coefficient_without_a_number_is_none() {
    let mut names = names_with_rest(&[0, 1, 2]);
    names.push("f_rest_x".to_string());
    names.push("f_rest_".to_string());
    names.push("f_rest_4294967296".to_string());
    let mut record = numbers_from(1.0);
    record.extend_from_slice(&[21.0, 22.0, 23.0, 24.0, 25.0, 26.0]);
    let sh = gaussians(&binary_file(&names, &[record]))[0].sh.expect("coefficients");
    assert_eq!(sh[0], bits(21.0));
    assert_eq!(sh[15], bits(22.0));
    assert_eq!(sh[30], bits(23.0));
}

#[test]
fn coefficients_of_the_same_number_keep_their_order() {
    let names = names_with_rest(&[5, 0, 5]);
    let mut record = numbers_from(1.0);
    record.extend_from_slice(&[21.0, 22.0, 23.0]);
    let sh = gaussians(&binary_file(&names, &[record]))[0].sh.expect("coefficients");
    assert_eq!((sh[0], sh[15], sh[30]), (bits(22.0), bits(21.0), bits(23.0)));
}

#[test]
fn text_bodies_are_read_like_binary_ones() {
    let names = names_with_rest(&[0, 1, 2]);
    let mut record = numbers_from(1.0);
    record.extend_from_slice(&[0.25, -0.5, 1e-3]);
    let binary = gaussians(&binary_file(&names, &[record]));
    let text = float_header("ascii", 1, &names)
        + "1 2 3 4 5 6 7 8 9 10 11 12 13 14 0.25 -.5 1e-3\n";
    assert_eq!(text_gaussians(text.as_bytes()), Some(binary));
}

#[test]
fn blank_lines_of_a_text_body_are_skipped() {
    let row = "1 2 3 4 5 6 7 8 9 10 11 12 13 14";
    let text = float_header("ascii", 2, &required_names())
        + &format!("\n  \t\r\n{row}\r\n\n{}\n{row}\n", row.replace("1 2 3", "-1 2 3"));
    let found = text_gaussians(text.as_bytes()).expect("complete rows");
    assert_eq!(found.len(), 2);
    assert_eq!(found[0].mean[0], bits(1.0));
    assert_eq!(found[1].mean[0], bits(-1.0));
}

#[test]
fn a_text_body_may_have_fewer_rows() {
    let text = float_header("ascii", 5, &required_names())
        + "1 2 3 4 5 6 7 8 9 10 11 12 13 14";
    assert_eq!(text_gaussians(text.as_bytes()).expect("complete rows").len(), 1);
}

#[test]
fn words_that_are_no_numbers_are_left_out() {
    let text = float_header("ascii", 1, &required_names())
        + "point 1 2 3 4 5 6 7 8 9 10 11 12 13 14\n";
    let found = text_gaussians(text.as_bytes()).expect("complete rows");
    assert_eq!(found[0].mean, [bits(1.0), bits(2.0), bits(3.0)]);
}

#[test]
fn a_row_with_too_few_numbers_is_not_complete() {
    let text = float_header("ascii", 1, &required_names()) + "1 2 3 4 5 6 7 8 9 10 11 12 13\n";
    assert_eq!(text_gaussians(text.as_bytes()), None);
}

#[test]
fn invalid_bytes_of_a_text_body_are_replaced() {
    let mut bytes = float_header("ascii", 1, &required_names()).into_bytes();
    bytes.extend_from_slice(b"1 \xff2 \xe9\n");
    match parse_ply(&bytes) {
        Ok(Ply::Text(text)) => {
            assert_eq!(text.rows, vec![vec!["1", "\u{fffd}2", "\u{fffd}"]]);
        }
        _ => panic!("no text body"),
    }
}

#[test]
fn invalid_bytes_of_a_header_are_replaced() {
    let mut bytes = b"ply\ncomment \xff\xfe\n".to_vec();
    bytes.extend_from_slice(&binary_file(&required_names(), &[numbers_from(1.0)]));
    assert_eq!(gaussians(&bytes)[0].mean[2], bits(3.0));
}

#[test]
fn a_header_may_have_carriage_returns() {
    let header = float_header("binary_little_endian", 1, &required_names());
    let header = header.replace('\n', "\r\n").replace("end_header\r\n", "end_header\n");
    let mut bytes = header.into_bytes();
    bytes.extend_from_slice(&[0; 56]);
    assert_eq!(gaussians(&bytes).len(), 1);
}

#[test]
fn a_file_without_an_end_of_the_header() {
    let found = error(b"ply\nformat ascii 1.0\nend_header\r\n");
    assert_eq!(found, PlyError::NoEndHeader);
    assert_eq!(found.kind(), ErrorKind::InvalidData);
    assert_eq!(found.message(), "no end_header");
    assert_eq!(error(b""), PlyError::NoEndHeader);
}

#[test]
fn a_big_endian_body() {
    let found = error(float_header("binary_big_endian", 0, &[]).as_bytes());
    assert_eq!(found, PlyError::BigEndian);
    assert_eq!(found.kind(), ErrorKind::InvalidData);
    assert_eq!(found.message(), "binary_big_endian .ply not supported");
}

#[test]
fn every_required_property_can_be_missing() {
    for (i, name) in NAMES.iter().enumerate() {
        let mut names = required_names();
        names.remove(i);
        let found = error(float_header("ascii", 0, &names).as_bytes());
        assert_eq!(found, PlyError::MissingProperty { name: name.to_string() });
        assert_eq!(found.kind(), ErrorKind::InvalidData);
        assert_eq!(found.message(), format!("missing property {name}"));
        assert_eq!(required_name(i), *name);
    }
}

#[test]
fn the_first_missing_property_is_named() {
    let found = error(float_header("ascii", 0, &["x".to_string(), "z".to_string()]).as_bytes());
    assert_eq!(found.message(), "missing property y");
}

#[test]
fn a_truncated_body() {
    let mut bytes = binary_file(&required_names(), &[numbers_from(1.0), numbers_from(2.0)]);
    let len = bytes.len();
    bytes.pop();
    let found = error(&bytes);
    assert_eq!(found.kind(), ErrorKind::UnexpectedEof);
    assert_eq!(
        found.message(),
        format!(
            "ply body truncated: expected {len} bytes (2 verts × 56-byte record + {} header, 14 \
             properties) but the file is {} bytes",
            len - 112,
            len - 1
        )
    );
}

#[test]
fn a_truncated_body_with_unknown_types() {
    let header = float_header("binary_little_endian", 1, &required_names()).replace(
        "property float x\n",
        "property f24 a\nproperty q\"t b\nproperty f24 c\nproperty float x\n",
    );
    let data_start = header.len();
    let found = error(header.as_bytes());
    assert_eq!(
        found.message(),
        format!(
            "ply body truncated: expected {} bytes (1 verts × 68-byte record + {data_start} header, \
             17 properties) but the file is {data_start} bytes — unrecognized property types \
             [\"f24\", \"q\\\"t\"] were sized as 4 bytes, which likely made the stride wrong \
             (compressed/half-float .ply?)",
            data_start + 68
        )
    );
}

#[test]
fn a_count_too_large_for_any_file() {
    let header = float_header("binary_little_endian", 7, &required_names())
        .replace("element vertex 7", &format!("element vertex {}", usize::MAX));
    match error(header.as_bytes()) {
        PlyError::BodyTruncated { count, stride, .. } => {
            assert_eq!((count, stride), (usize::MAX, 56));
        }
        _ => panic!("another error"),
    }
    assert_eq!(expected_size(usize::MAX, 56, 10), usize::MAX);
    assert_eq!(expected_size(3, 56, 10), 178);
}

#[test]
fn a_number_that_reaches_past_the_end() {
    let header = float_header("binary_little_endian", 1, &required_names())
        .replace("property float opacity", "property uchar opacity");
    let mut bytes = header.into_bytes();
    bytes.extend_from_slice(&[1; 53]);
    let found = error(&bytes);
    assert_eq!(found, PlyError::FieldPastEnd);
    assert_eq!(found.kind(), ErrorKind::UnexpectedEof);
    assert_eq!(found.message(), "a property reaches past the end of the file");
    bytes.extend_from_slice(&[2; 3]);
    assert_eq!(gaussians(&bytes)[0].opacity_raw, 0x0202_0201);
}

#[test]
fn sizes_of_types() {
    for (name, size) in [
        ("char", 1), ("uchar", 1), ("int8", 1), ("uint8", 1),
        ("short", 2), ("ushort", 2), ("int16", 2), ("uint16", 2), ("half", 2), ("float16", 2),
        ("int", 4), ("uint", 4), ("int32", 4), ("uint32", 4), ("float", 4), ("float32", 4),
        ("double", 8), ("float64", 8),
    ] {
        assert_eq!(type_size(&chars(name)), Some(size));
    }
    assert_eq!(type_size(&chars("Float")), None);
    assert_eq!(type_size(&chars("")), None);
}

#[test]
fn the_header_ends_at_the_first_marker() {
    assert_eq!(find_header_end(b"plyend_header\nend_header\n"), Some(3));
    assert_eq!(find_header_end(b"end_header\n"), Some(0));
    assert_eq!(find_header_end(b"end_heade\nend_header"), None);
    assert_eq!(find_header_end(b"end_h"), None);
}

#[test]
fn lines_of_a_header() {
    let header = scan_header(&chars(
        "ply\nformat binary_big_endian 1.0\nformat ascii_plus\nelement vertex +12\n\
         property float x y\nproperty odd u\nproperty odd v\nelement vertex\nproperty char w\n\
         element face 3\nproperty char z",
    ));
    assert!(header.ascii);
    assert!(!header.big_endian);
    assert_eq!(header.count, 12);
    assert!(!header.in_vertex);
    let props: Vec<(String, usize)> =
        header.props.iter().map(|p| (p.name.iter().collect(), p.size)).collect();
    assert_eq!(props, vec![("u".to_string(), 4), ("v".to_string(), 4), ("w".to_string(), 1)]);
    assert_eq!(header.unknown, vec![chars("odd")]);
}

#[test]
fn a_line_that_says_nothing_changes_nothing() {
    let mut header = scan_header(&chars("element vertex 2\nproperty int a"));
    for line in ["comment property float x", "obj_info element face 3", "", "property list uchar int x"] {
        header.read_line(&chars(line));
    }
    assert_eq!(header.count, 2);
    assert_eq!(header.props.len(), 1);
    assert!(header.in_vertex);
}

#[test]
fn a_header_and_its_body_apart() {
    let bytes = binary_file(&required_names(), &[numbers_from(1.0)]);
    let end = find_header_end(&bytes).expect("a header");
    let header = read_header(&bytes, end);
    assert_eq!(header.count, 1);
    assert_eq!(header.props.len(), 14);
    match read_body(header, &bytes, end + 11) {
        Ok(Ply::Gaussians(found)) => assert_eq!(found, gaussians(&bytes)),
        _ => panic!("no gaussians"),
    }
}

#[test]
fn a_layout_by_hand() {
    let mut props: Vec<Property> = vec![Property { name: chars("nx"), size: 2 }];
    for name in NAMES {
        props.push(Property { name: chars(name), size: 4 });
    }
    let layout = match Layout::new(props) {
        Ok(layout) => layout,
        Err(_) => panic!("a property is missing"),
    };
    assert_eq!(layout.stride, 58);
    assert_eq!(layout.columns[0], 1);
    assert_eq!(layout.offsets[1], 2);
    assert_eq!(layout.per_channel, 0);
    let numbers: Vec<u32> = (0..15).collect();
    let gaussian = layout.gaussian(&Row::Numbers { numbers: &numbers });
    assert_eq!(gaussian.mean, [1, 2, 3]);
    assert_eq!(gaussian.opacity_raw, 14);
    let bytes: Vec<u8> = (0..116).collect();
    let records = layout.read_records(&bytes, 0, 2);
    assert_eq!(records[0].mean[0], 0x0504_0302);
    assert_eq!(records[1].mean[0], 0x3f3e_3d3c);
    match Layout::new(vec![Property { name: chars("x"), size: 4 }]) {
        Ok(_) => panic!("nothing is missing"),
        Err(n) => assert_eq!(n, 1),
    }
}

#[test]
fn rows_of_a_text() {
    assert_eq!(
        split_rows(&chars("a  b\n\n \u{a0}c\u{3000}d \n e"), 2),
        vec![vec!["a", "b"], vec!["c", "d"]]
    );
    assert_eq!(split_rows(&chars("a\nb"), 0).len(), 0);
}

#[test]
fn a_written_file_is_read_back() {
    let count = 3u32;
    let written: Vec<Gaussian> = (0..count)
        .map(|i| {
            let number = |k: u32| 0xfedc_ba98u32.wrapping_mul(i * 59 + k + 1);
            let mut sh = [0; 45];
            for (k, coefficient) in sh.iter_mut().enumerate() {
                *coefficient = number(14 + k as u32);
            }
            Gaussian {
                mean: [number(0), number(1), number(2)],
                log_scale: [number(3), number(4), number(5)],
                quat: [number(6), number(7), number(8), number(9)],
                color_dc: [number(10), number(11), number(12)],
                opacity_raw: number(13),
                sh: Some(sh),
            }
        })
        .collect();
    let order: Vec<usize> = (0..59).map(|i| (i * 37 + 5) % 59).collect();
    let name = |f: usize| {
        if f < 14 { NAMES[f].to_string() } else { format!("f_rest_{}", f - 14) }
    };
    let mut bytes =
        format!("ply\nformat binary_little_endian 1.0\nelement vertex {count}\n").into_bytes();
    for f in &order {
        bytes.extend_from_slice(format!("property float {}\n", name(*f)).as_bytes());
    }
    bytes.extend_from_slice(b"end_header\n");
    for g in &written {
        let mut numbers = Vec::new();
        numbers.extend_from_slice(&g.mean);
        numbers.extend_from_slice(&g.log_scale);
        numbers.extend_from_slice(&g.quat);
        numbers.extend_from_slice(&g.color_dc);
        numbers.push(g.opacity_raw);
        numbers.extend_from_slice(&g.sh.expect("coefficients"));
        for f in &order {
            bytes.extend_from_slice(&numbers[*f].to_le_bytes());
        }
    }
    assert_eq!(gaussians(&bytes), written);
}

#[test]
fn columns_may_stand_anywhere() {
    let plain = names_with_rest(&[0, 1, 2]);
    let mut record = numbers_from(1.0);
    record.extend_from_slice(&[21.0, 22.0, 23.0]);
    let places: Vec<usize> = (0..17).map(|i| (i * 5 + 3) % 17).collect();
    let mut names: Vec<String> = places.iter().map(|i| plain[*i].clone()).collect();
    let mut other: Vec<f32> = places.iter().map(|i| record[*i]).collect();
    names.insert(4, "nx".to_string());
    other.insert(4, -1.0);
    assert_eq!(
        gaussians(&binary_file(&names, &[other])),
        gaussians(&binary_file(&plain, &[record]))
    );
}
