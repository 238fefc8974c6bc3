use folio::gallery::{is_earlier, Gallery, GalleryImage, Timestamp};
use folio::photo::{
    cached_palette, hex_color, palette_codes, thumbnail_crop, thumbnail_palette, trim_quotes,
};
use folio::colorpalette::PaletteError;

fn ts(year: i16, month: u8, day: u8, hour: u8) -> Timestamp {
    Timestamp { year, month, day, hour, minute: 0, second: 0, nanosecond: 0 }
}

fn image(name: &str, t: Timestamp) -> GalleryImage {
    GalleryImage { filename: name.to_string(), title: None, timestamp: t, colorpalette: vec![] }
}

#[test]
fn month_year_names_month_and_pads_year() {
    assert_eq!(image("a", ts(2021, 3, 5, 0)).month_year(), "March 2021");
    assert_eq!(image("a", ts(987, 12, 1, 0)).month_year(), "December 0987");
    assert_eq!(image("a", ts(5, 1, 1, 0)).month_year(), "January 0005");
}

#[test]
fn month_year_of_years_before_year_zero() {
    assert_eq!(image("a", ts(-44, 3, 15, 0)).month_year(), "March -0044");
}

#[test]
fn timestamps_are_checked_on_construction() {
    assert_eq!(Timestamp::new(2024, 2, 29, 23, 59, 59, 999_999_999), Some(ts(2024, 2, 29, 23)).map(|t| Timestamp { minute: 59, second: 59, nanosecond: 999_999_999, ..t }));
    assert_eq!(Timestamp::new(2023, 2, 29, 0, 0, 0, 0), None);
    assert_eq!(Timestamp::new(1900, 2, 29, 0, 0, 0, 0), None);
    assert!(Timestamp::new(2000, 2, 29, 0, 0, 0, 0).is_some());
    assert_eq!(Timestamp::new(2021, 4, 31, 0, 0, 0, 0), None);
    assert_eq!(Timestamp::new(2021, 0, 1, 0, 0, 0, 0), None);
    assert_eq!(Timestamp::new(2021, 1, 1, 24, 0, 0, 0), None);
    assert_eq!(Timestamp::new(10000, 1, 1, 0, 0, 0, 0), None);
    assert!(!Timestamp { year: 2021, month: 13, day: 1, hour: 0, minute: 0, second: 0, nanosecond: 0 }.is_valid());
}

#[test]
fn timestamps_compare_field_by_field() {
    assert!(is_earlier(&ts(2020, 12, 31, 23), &ts(2021, 1, 1, 0)));
    assert!(!is_earlier(&ts(2021, 1, 1, 0), &ts(2021, 1, 1, 0)));
    assert!(is_earlier(&ts(2021, 1, 1, 0), &ts(2021, 1, 1, 1)));
}

#[test]
fn gallery_orders_latest_first() {
    let g = Gallery::load(vec![
        image("old", ts(2019, 1, 1, 0)),
        image("new", ts(2023, 6, 1, 0)),
        image("tie-a", ts(2020, 1, 1, 0)),
        image("tie-b", ts(2020, 1, 1, 0)),
    ]);
    let names: Vec<&str> = g.images.iter().map(|i| i.filename.as_str()).collect();
    assert_eq!(names, vec!["new", "tie-a", "tie-b", "old"]);
}

#[test]
fn gallery_find_gives_neighbours() {
    let g = Gallery::load(vec![
        image("a", ts(2023, 1, 1, 0)),
        image("b", ts(2022, 1, 1, 0)),
        image("c", ts(2021, 1, 1, 0)),
    ]);
    let f = g.find("b").unwrap();
    assert_eq!(f.image.filename, "b");
    assert_eq!(f.prev.map(|i| i.filename.as_str()), Some("a"));
    assert_eq!(f.next.map(|i| i.filename.as_str()), Some("c"));
    let first = g.find("a").unwrap();
    assert!(first.prev.is_none());
    let last = g.find("c").unwrap();
    assert!(last.next.is_none());
    assert!(g.find("d").is_none());
}

#[test]
fn gallery_counts_pages() {
    let images: Vec<GalleryImage> = (0..7).map(|i| image(&format!("{}", i), ts(2020, 1, 1, i))).collect();
    let g = Gallery::load(images);
    assert_eq!(g.size(), 7);
    assert_eq!(g.total_pages(3), 3);
    assert_eq!(g.total_pages(7), 1);
    assert_eq!(g.total_pages(1), 7);
    assert_eq!(Gallery::load(vec![]).total_pages(5), 0);
}

#[test]
fn hex_codes_are_lower_case_pairs() {
    assert_eq!(hex_color([255, 128, 0]), "ff8000");
    assert_eq!(hex_color([1, 2, 171]), "0102ab");
}

#[test]
fn dark_colours_leave_the_palette() {
    // Luma of [60, 60, 60] is 60, not above the threshold; [61, 61, 61] is 61.
    let codes = palette_codes(&vec![[0, 0, 0], [255, 255, 255], [60, 60, 60], [61, 61, 61], [0, 255, 0]]);
    assert_eq!(codes, vec!["ffffff", "3d3d3d", "00ff00"]);
}

#[test]
fn thumbnail_palette_of_pixels() {
    let mut pixels = vec![[250u8, 250, 250]; 4];
    pixels.extend(vec![[0u8, 0, 0]; 4]);
    assert_eq!(thumbnail_palette(&mut pixels), Ok(vec!["fafafa".to_string()]));
    let mut none: Vec<[u8; 3]> = vec![];
    assert_eq!(thumbnail_palette(&mut none), Err(PaletteError::EmptyInput));
}

#[test]
fn cache_keeps_six_byte_lines() {
    assert_eq!(cached_palette("ffffff\n00ff00"), vec!["ffffff", "00ff00"]);
    assert_eq!(cached_palette("ffffff\r\nabc\n123456\n"), vec!["ffffff", "123456"]);
    assert_eq!(cached_palette("ééé\n1234567\n"), vec!["ééé"]);
    assert_eq!(cached_palette(""), Vec::<String>::new());
}

#[test]
fn crop_keeps_a_centred_four_by_three_area() {
    assert_eq!(thumbnail_crop(400, 400), (0, 50, 400, 300));
    assert_eq!(thumbnail_crop(800, 300), (200, 0, 400, 300));
    assert_eq!(thumbnail_crop(400, 300), (0, 0, 400, 300));
}

#[test]
fn titles_lose_their_quotes() {
    assert_eq!(trim_quotes("\"Sunset\""), "Sunset");
    assert_eq!(trim_quotes("\"\"a \"b\"\"\""), "a \"b");
    assert_eq!(trim_quotes("\"\""), "");
    assert_eq!(trim_quotes("plain"), "plain");
}
