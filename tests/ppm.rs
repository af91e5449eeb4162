use pathtracer::ppm::{encode_ppm, ppm_header, push_decimal, push_pixel_line, Pixel};

fn text(bytes: Vec<u8>) -> String {
    String::from_utf8(bytes).unwrap()
}

#[test]
fn decimal_digits() {
    for (n, s) in [(0u32, "0"), (7, "7"), (10, "10"), (255, "255"), (4294967295, "4294967295")] {
        let mut out = vec![b'x'];
        push_decimal(&mut out, n);
        assert_eq!(text(out), format!("x{s}"));
    }
}

#[test]
fn header_of_wide_image() {
    assert_eq!(text(ppm_header(400, 225)), "P3\n400 225\n255\n\n");
}

#[test]
fn pixel_line_format() {
    let mut out = Vec::new();
    push_pixel_line(&mut out, Pixel { r: 0, g: 128, b: 255 });
    assert_eq!(text(out), "0 128 255\n");
}

#[test]
fn small_image_file() {
    let rows = vec![
        vec![Pixel { r: 1, g: 2, b: 3 }, Pixel { r: 40, g: 50, b: 60 }],
        vec![Pixel { r: 255, g: 0, b: 9 }, Pixel { r: 100, g: 200, b: 10 }],
    ];
    assert_eq!(
        text(encode_ppm(2, 2, &rows)),
        "P3\n2 2\n255\n\n1 2 3\n40 50 60\n255 0 9\n100 200 10\n"
    );
}

#[test]
fn full_size_image_has_one_line_per_pixel() {
    let (w, h) = (400u32, 225u32);
    let rows: Vec<Vec<Pixel>> = (0..h)
        .map(|j| (0..w).map(|i| Pixel { r: (i % 256) as u8, g: (j % 256) as u8, b: 255 }).collect())
        .collect();
    let out = text(encode_ppm(w, h, &rows));
    assert!(out.starts_with("P3\n400 225\n255\n"));
    let body: Vec<&str> = out["P3\n400 225\n255\n\n".len()..].lines().collect();
    assert_eq!(body.len(), 400 * 225);
    assert_eq!(body[0], "0 0 255");
    assert_eq!(body[401], "1 1 255");
    for line in body {
        let values: Vec<u32> = line.split(' ').map(|v| v.parse().unwrap()).collect();
        assert_eq!(values.len(), 3);
        assert!(values.iter().all(|v| *v <= 255));
    }
}

#[test]
fn empty_image_is_header_only() {
    let rows: Vec<Vec<Pixel>> = Vec::new();
    assert_eq!(text(encode_ppm(0, 0, &rows)), "P3\n0 0\n255\n\n");
}
