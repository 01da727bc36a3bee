use rip::ast::Decimal;
use rip::collect::collect_resources;
use rip::image_data::ImageData;
use rip::parser::parse;
use rip::resources::{
    collect_printer_config, download_cache_key, finish_image, fnv_hash, image_bounds, image_cache_key,
    image_requests, is_svg, is_url, printable_width, process_raster, pt_to_px, remote_urls, resolve_resources,
    scale_image_dims, svg_target, u64_hex, RenderResources, ResourceConfig, BLACK_THRESHOLD,
};

fn dec(milli: u64) -> Decimal {
    Decimal::from_milli(milli)
}

#[test]
fn url_detection() {
    assert!(is_url("https://a.com/x.png"));
    assert!(!is_url("http://a.com/x.png"));
    assert!(!is_url("ftp://a.com/x.png"));
    assert!(!is_url("logo.png"));
}

#[test]
fn svg_detection() {
    assert!(is_svg(b"  \n<svg></svg>"));
    assert!(is_svg(b"<?xml version=\"1.0\"?>"));
    assert!(!is_svg(b"\x89PNG"));
    assert!(!is_svg(b"   "));
    assert!(!is_svg(b""));
}

#[test]
fn fnv_hash_known_values() {
    assert_eq!(fnv_hash(""), 0xcbf29ce484222325);
    assert_eq!(fnv_hash("a"), 0xaf63dc4c8601ec8c);
}

#[test]
fn hex_digits() {
    assert_eq!(u64_hex(0), vec!['0']);
    assert_eq!(u64_hex(255), vec!['f', 'f']);
    assert_eq!(u64_hex(0x1a2b), vec!['1', 'a', '2', 'b']);
}

#[test]
fn processed_image_cache_key() {
    assert_eq!(
        image_cache_key("a", dec(80000), 203, dec(0), dec(0), 128, true),
        "af63dc4c8601ec8c_img_80_203_0_0_128_dither"
    );
    assert_eq!(
        image_cache_key("a", dec(58000), 300, dec(72500), dec(10000), 100, false),
        "af63dc4c8601ec8c_img_58_300_72.5_10_100_threshold"
    );
}

#[test]
fn download_cache_key_uses_hash_and_extension() {
    assert_eq!(
        download_cache_key("https://x.com/logo.png?v=1"),
        "a29f27fca458669d862dc878021c2198be93767b62b60450eaaa453ee2cca0ed.png"
    );
    assert_eq!(
        download_cache_key("https://x.com/file"),
        "621abe3de25f4130fe7d3964191357a6b9707ed7b28856ffd5e0beb9260cf081.bin"
    );
}

#[test]
fn printer_config_defaults_and_overrides() {
    assert_eq!(collect_printer_config(&parse("Hello")), (dec(80000), 203, BLACK_THRESHOLD));
    let nodes = parse("@printer-width(58mm)\n@printer-dpi(300)\n@printer-threshold(100)");
    assert_eq!(collect_printer_config(&nodes), (dec(58000), 300, 100));
}

#[test]
fn printable_width_and_points() {
    assert_eq!(printable_width(dec(80000), 203), 576);
    assert_eq!(printable_width(dec(58000), 203), 400);
    // Tiny paper keeps half its width, and at least 8 dots.
    assert_eq!(printable_width(dec(1000), 203), 8);
    // Other sizes round to the nearest dot.
    assert_eq!(printable_width(dec(76000), 203), 543);
    assert_eq!(printable_width(dec(80000), 300), 850);
    assert_eq!(pt_to_px(dec(72000), 203), 203);
    assert_eq!(pt_to_px(dec(10000), 203), 28);
}

#[test]
fn scaled_dimensions() {
    assert_eq!(scale_image_dims(100, 50, Some(50), None, 576), (50, 25));
    assert_eq!(scale_image_dims(100, 50, Some(200), None, 576), (100, 50));
    assert_eq!(scale_image_dims(100, 50, None, Some(10), 576), (20, 10));
    assert_eq!(scale_image_dims(100, 50, Some(30), Some(30), 576), (30, 15));
    assert_eq!(scale_image_dims(100, 50, None, None, 576), (576, 288));
    // With no bound the image takes the full paper width, even when taller.
    assert_eq!(scale_image_dims(50, 100, None, None, 400), (400, 800));
    assert_eq!(scale_image_dims(1000, 10, None, None, 400), (400, 4));
    assert_eq!(scale_image_dims(1000, 1, Some(10), None, 576), (10, 1));
}

#[test]
fn bounds_and_svg_target() {
    assert_eq!(image_bounds(Some(dec(72000)), None, 203, 576), (Some(203), None));
    assert_eq!(image_bounds(Some(dec(1000000)), Some(dec(72000)), 203, 576), (Some(576), Some(203)));
    assert_eq!(image_bounds(Some(dec(0)), Some(dec(0)), 203, 576), (None, None));
    assert_eq!(svg_target(None, None, 576), (576, 576));
    assert_eq!(svg_target(Some(100), None, 576), (100, 100));
    assert_eq!(svg_target(Some(100), Some(50), 576), (100, 50));
}

#[test]
fn raster_processing_scales_nearest_neighbor() {
    let raw = ImageData { width: 2, height: 2, pixels: vec![0, 255, 255, 0] };
    let img = process_raster(&raw, Some(4), Some(4), 100);
    assert_eq!((img.width, img.height), (4, 4));
    assert_eq!(
        img.pixels,
        vec![0, 0, 255, 255, 0, 0, 255, 255, 255, 255, 0, 0, 255, 255, 0, 0]
    );
}

#[test]
fn finishing_thresholds_or_dithers() {
    let mut img = ImageData { width: 3, height: 1, pixels: vec![10, 200, 128] };
    finish_image(&mut img, false, 128);
    assert_eq!(img.pixels, vec![0, 255, 255]);
    let mut img = ImageData { width: 2, height: 1, pixels: vec![0, 255] };
    finish_image(&mut img, true, 128);
    assert_eq!(img.pixels, vec![0, 255]);
}

#[test]
fn cache_bytes_round_trip() {
    let img = ImageData { width: 2, height: 1, pixels: vec![5, 6] };
    let bytes = img.to_cache_bytes();
    assert_eq!(bytes, vec![2, 0, 0, 0, 1, 0, 0, 0, 5, 6]);
    let back = ImageData::from_cache_bytes(&bytes).unwrap();
    assert_eq!((back.width, back.height, back.pixels), (2, 1, vec![5, 6]));
    assert!(ImageData::from_cache_bytes(&[1, 0, 0]).is_none());
    assert!(ImageData::from_cache_bytes(&[2, 0, 0, 0, 1, 0, 0, 0, 5]).is_none());
}

#[test]
fn render_resources_lookup() {
    let mut res = RenderResources::new();
    assert!(res.get_image("a.png").is_none());
    res.insert_image("a.png".to_string(), ImageData { width: 1, height: 1, pixels: vec![7] });
    res.insert_image("a.png".to_string(), ImageData { width: 1, height: 1, pixels: vec![9] });
    assert_eq!(res.get_image("a.png").unwrap().pixels, vec![9]);
    res.insert_font("f.ttf".to_string(), vec![1, 2]);
    assert_eq!(res.get_font("f.ttf"), Some(&vec![1, 2]));
    assert!(res.get_font("g.ttf").is_none());
}

#[test]
fn collected_resources_are_deduplicated() {
    let nodes = parse(
        "@style(text, https://f.com/a.ttf, 12)\n@image(x.png)\n@image(x.png, 100)\n@style(title, https://f.com/a.ttf, 20)\n@image(y.png)",
    );
    let urls = collect_resources(&nodes);
    assert_eq!(urls.fonts, vec!["https://f.com/a.ttf".to_string()]);
    assert_eq!(urls.images, vec!["x.png".to_string(), "y.png".to_string()]);
}

#[test]
fn remote_resources_still_to_fetch() {
    let nodes = parse(
        "@image(https://a.com/x.png)\n@image(local.png)\n@style(text, https://a.com/f.ttf, 12)\n@image(https://a.com/y.png)",
    );
    assert_eq!(
        remote_urls(&nodes),
        vec!["https://a.com/x.png".to_string(), "https://a.com/y.png".to_string(), "https://a.com/f.ttf".to_string()]
    );
    let config = ResourceConfig {
        resource_dir: None,
        cache_dir: None,
        resources: vec![("https://a.com/f.ttf".to_string(), vec![0])],
    };
    let cached = vec!["https://a.com/y.png".to_string()];
    // Without a cache directory the cached list is not consulted.
    assert_eq!(
        resolve_resources(&nodes, &config, &cached),
        vec!["https://a.com/x.png".to_string(), "https://a.com/y.png".to_string()]
    );
    let config = ResourceConfig { cache_dir: Some("cache".to_string()), ..config };
    assert_eq!(resolve_resources(&nodes, &config, &cached), vec!["https://a.com/x.png".to_string()]);
}

#[test]
fn image_requests_one_per_url() {
    let nodes = parse("@image(x.png, 100)\n@logo(x.png)\n@logo(y.png, 50, 20)");
    let reqs = image_requests(&nodes);
    assert_eq!(reqs.len(), 2);
    assert_eq!(reqs[0].url, "x.png");
    assert_eq!(reqs[0].width, Some(dec(100000)));
    assert_eq!(reqs[0].height, None);
    assert!(reqs[0].dither);
    assert_eq!(reqs[1].url, "y.png");
    assert_eq!(reqs[1].width, Some(dec(50000)));
    assert_eq!(reqs[1].height, Some(dec(20000)));
    assert!(!reqs[1].dither);
}

#[test]
fn provided_bytes_replace_earlier_ones() {
    let mut config = ResourceConfig::new(None, Some("cache".to_string()));
    config.provide("https://a.com/x.png".to_string(), vec![1]);
    config.provide("https://a.com/x.png".to_string(), vec![2]);
    config.provide("https://a.com/y.png".to_string(), vec![3]);
    assert_eq!(
        config.resources,
        vec![("https://a.com/x.png".to_string(), vec![2]), ("https://a.com/y.png".to_string(), vec![3])]
    );
}

#[test]
fn resolved_urls_images_first_in_document_order() {
    let nodes = parse(
        "@style(text, https://a.com/f.ttf, 12)\n@image(https://a.com/b.png)\n@style(title, https://a.com/g.ttf, 20)\n@image(https://a.com/a.png)\n@image(https://a.com/b.png)",
    );
    let config = ResourceConfig::new(None, None);
    let cached: Vec<String> = Vec::new();
    assert_eq!(
        resolve_resources(&nodes, &config, &cached),
        vec![
            "https://a.com/b.png".to_string(),
            "https://a.com/a.png".to_string(),
            "https://a.com/f.ttf".to_string(),
            "https://a.com/g.ttf".to_string(),
        ]
    );
}
