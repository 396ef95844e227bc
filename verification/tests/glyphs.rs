use port_sniffer::ascii::{get_str_ascii, pixel_intensity};

#[test]
fn glyph_bands() {
    assert_eq!(get_str_ascii(0), " ");
    assert_eq!(get_str_ascii(31), " ");
    assert_eq!(get_str_ascii(32), ".");
    assert_eq!(get_str_ascii(64), ",");
    assert_eq!(get_str_ascii(100), "-");
    assert_eq!(get_str_ascii(128), "~");
    assert_eq!(get_str_ascii(160), "+");
    assert_eq!(get_str_ascii(192), "=");
    assert_eq!(get_str_ascii(224), "@");
    assert_eq!(get_str_ascii(255), "@");
}

#[test]
fn intensity_averages_channels() {
    assert_eq!(pixel_intensity(90, 90, 90, 255), 90);
    assert_eq!(pixel_intensity(255, 255, 255, 1), 255);
    assert_eq!(pixel_intensity(10, 20, 30, 255), 3 + 6 + 10);
}

#[test]
fn transparent_pixels_are_dark() {
    assert_eq!(pixel_intensity(255, 255, 255, 0), 0);
}
