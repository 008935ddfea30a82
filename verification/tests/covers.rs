use sonic::covers::{cover_file_name, cover_thumbnail, cover_url, is_stale_cover, pick_cover};
use sonic::format::{decimal_chars, format_clock, hex_chars};

#[test]
fn cover_file_names() {
    assert_eq!(cover_file_name(0), "v2_0000000000000000.png");
    assert_eq!(cover_file_name(0xdead_beef), "v2_00000000deadbeef.png");
    assert_eq!(cover_file_name(u64::MAX), "v2_ffffffffffffffff.png");
    assert_eq!(cover_file_name(0x0123_4567_89ab_cdef), format!("v2_{:016x}.png", 0x0123_4567_89ab_cdefu64));
}

#[test]
fn stale_covers() {
    assert!(is_stale_cover("abc.jpg"));
    assert!(is_stale_cover("abc.png"));
    assert!(!is_stale_cover("v2_abc.png"));
    assert!(!is_stale_cover("v2_abc.jpg"));
    assert!(!is_stale_cover("abc.gif"));
    assert!(!is_stale_cover("abc.PNG"));
    assert!(!is_stale_cover(&cover_file_name(42)));
}

#[test]
fn picture_choice() {
    let kinds = |v: &[&str]| v.iter().map(|s| s.to_string()).collect::<Vec<String>>();
    assert_eq!(pick_cover(&kinds(&["Artist", "CoverFront"])), Some(1));
    assert_eq!(pick_cover(&kinds(&["Artist", "Other"])), Some(0));
    assert_eq!(pick_cover(&kinds(&["Media", "CoverBack", "CoverFront"])), Some(1));
    assert_eq!(pick_cover(&kinds(&["Front", "Cover"])), Some(0));
    assert_eq!(pick_cover(&Vec::new()), None);
}

#[test]
fn cover_urls() {
    assert_eq!(cover_url("\\\\?\\C:\\covers\\a.png"), "file://C:\\covers\\a.png");
    assert_eq!(cover_url("\\\\?\\UNC\\server\\share\\a.png"), "file://\\\\server\\share\\a.png");
    assert_eq!(cover_url("/home/u/a.png"), "file:///home/u/a.png");
}

#[test]
fn clock_text() {
    assert_eq!(format_clock(0), "0:00");
    assert_eq!(format_clock(5), "0:05");
    assert_eq!(format_clock(65), "1:05");
    assert_eq!(format_clock(600), "10:00");
    assert_eq!(format_clock(3599), "59:59");
    assert_eq!(format_clock(3600), "60:00");
    for s in [0u64, 9, 10, 59, 61, 12345] {
        assert_eq!(format_clock(s), format!("{}:{:02}", s / 60, s % 60));
    }
}

#[test]
fn digits() {
    assert_eq!(decimal_chars(0), vec!['0']);
    assert_eq!(decimal_chars(1203).into_iter().collect::<String>(), "1203");
    assert_eq!(hex_chars(255, 4).into_iter().collect::<String>(), "00ff");
}

fn png_of_size(w: u32, h: u32) -> Vec<u8> {
    let img = image::DynamicImage::ImageRgb8(image::RgbImage::from_pixel(w, h, image::Rgb([200, 10, 10])));
    let mut out = std::io::Cursor::new(Vec::new());
    img.write_to(&mut out, image::ImageFormat::Png).unwrap();
    out.into_inner()
}

#[test]
fn cover_thumbnails_fit_in_400() {
    let kinds = vec!["Artist".to_string(), "CoverFront".to_string()];
    let pictures = vec![png_of_size(10, 10), png_of_size(800, 400)];
    let thumb = cover_thumbnail(&kinds, &pictures).unwrap();
    let decoded = image::load_from_memory(&thumb).unwrap();
    assert_eq!((decoded.width(), decoded.height()), (400, 200));
    // The first picture when none is a cover.
    let kinds = vec!["Artist".to_string()];
    let thumb = cover_thumbnail(&kinds, &vec![png_of_size(20, 40)]).unwrap();
    let decoded = image::load_from_memory(&thumb).unwrap();
    assert_eq!((decoded.width(), decoded.height()), (200, 400));
    assert_eq!(cover_thumbnail(&Vec::new(), &Vec::new()), None);
    assert_eq!(cover_thumbnail(&vec!["Cover".to_string()], &vec![vec![1, 2, 3]]), None);
}
