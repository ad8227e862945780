use escpos_md::command::{CharMagnification, Command, Justification, UnderlineThickness};
use escpos_md::config::PrinterConfig;
use escpos_md::instruction::{pack_bitmap, BitMapAlgorithm, EscposImage, FilterType, ImageOptions, Raster};
use escpos_md::style::{Display, RelativeStyle, Style, StyleSheet};
use escpos_md::style_tag::StyleTag;
use escpos_md::style_tag::StyleTag::{Em, Li, Strong, Ul, H1, P};
use escpos_md::{Error, MarkdownRenderOptions, MdEvent, MdTag, Printer};

fn printer() -> Printer<Vec<u8>> {
    PrinterConfig::tm_t20ii().build(Vec::new()).unwrap()
}

fn find(hay: &[u8], needle: &[u8]) -> Option<usize> {
    hay.windows(needle.len()).position(|w| w == needle)
}

fn render(events: Vec<MdEvent>) -> Vec<u8> {
    let mut p = printer();
    p.markdown(&events, &MarkdownRenderOptions::new(), &Vec::new()).unwrap();
    p.into_device()
}

#[test]
fn default_sheet_styles() {
    let sheet = StyleSheet::default();
    assert_eq!(sheet.get(&[P]).margin_top, 60);
    let h1 = sheet.get(&[H1]);
    assert!(h1.bold);
    assert_eq!(h1.char_magnification.to_byte(), 0x22);
    let li = sheet.get(&[Ul, Li]);
    assert_eq!(li.margin_left, 0);
    assert_eq!(li.prefix, "* ");
    let nested = sheet.get(&[Ul, Li, Ul, Li]);
    assert_eq!(nested.margin_left, 28);
    assert_eq!(nested.margin_top, 12);
    assert_eq!(sheet.get(&[Ul, Li, Ul]).margin_top, 0);
    let em = sheet.get(&[P, Em]);
    assert_eq!(em.display, Display::Inline);
    assert_eq!(em.underline, UnderlineThickness::OneDot);
    let strong = sheet.get(&[P, Strong]);
    assert!(strong.bold);
    assert_eq!(strong.display, Display::Inline);
}

#[test]
fn cascade_later_rules_win() {
    let mut sheet = StyleSheet::new(Style::new());
    let mut first = RelativeStyle::new();
    first.margin_top = Some(5);
    first.bold = Some(true);
    let mut second = RelativeStyle::new();
    second.margin_top = Some(9);
    sheet.push("p", first).unwrap();
    sheet.push("p", second).unwrap();
    let s = sheet.get(&[StyleTag::P]);
    assert_eq!(s.margin_top, 9);
    assert!(s.bold);
    // Font fields reach descendants, block fields stay on the node itself.
    let s = sheet.get(&[StyleTag::P, StyleTag::Em]);
    assert!(s.bold);
    assert_eq!(s.margin_top, 0);
    let mut bad = StyleSheet::new(Style::new());
    assert_eq!(bad.push("p >", RelativeStyle::new()), Err(Error::DanglingDirectChild));
}

#[test]
fn swapping_unmatched_rules_keeps_style() {
    let build = |order: [&str; 3]| {
        let mut sheet = StyleSheet::new(Style::new());
        for sel in order {
            let mut r = RelativeStyle::new();
            r.margin_top = Some(sel.len());
            r.font_width = Some(sel.len() as u8);
            sheet.push(sel, r).unwrap();
        }
        sheet.get(&[StyleTag::P, StyleTag::Em])
    };
    assert_eq!(build(["ul", "p em", "h1"]), build(["h1", "p em", "ul"]));
}

#[test]
fn apply_font_clamps_magnification() {
    let mut s = Style::new();
    let mut r = RelativeStyle::new();
    r.font_width = Some(12);
    r.font_height = Some(0);
    r.prefix = Some("> ".to_string());
    s.apply_font(&r);
    assert_eq!(s.char_magnification, CharMagnification::clamped(8, 1));
    assert_eq!(s.prefix, "");
    s.apply_block(&r);
    assert_eq!(s.prefix, "> ");
}

#[test]
fn empty_document_emits_nothing() {
    assert!(render(vec![]).is_empty());
}

#[test]
fn hello_world_paragraph() {
    let out = render(vec![
        MdEvent::Start(MdTag::Paragraph),
        MdEvent::Text("Hello, World!".to_string()),
        MdEvent::End(MdTag::Paragraph),
    ]);
    let text = [0x48, 0x65, 0x6C, 0x6C, 0x6F, 0x2C, 0x20, 0x57, 0x6F, 0x72, 0x6C, 0x64, 0x21];
    let top = find(&out, &Command::FeedPaper(60).as_bytes()).unwrap();
    let at = find(&out, &text).unwrap();
    let bottom = find(&out[at..], &Command::FeedPaper(0).as_bytes()).unwrap();
    assert!(top < at);
    assert_eq!(bottom, text.len());
}

#[test]
fn heading_is_large_and_bold() {
    let out = render(vec![
        MdEvent::Start(MdTag::Heading(1)),
        MdEvent::Text("Title".to_string()),
        MdEvent::End(MdTag::Heading(1)),
    ]);
    let at = find(&out, b"Title").unwrap();
    let size = find(&out, &[0x1d, 0x21, 0x22]).unwrap();
    let bold = find(&out, &[0x1b, 0x45, 1]).unwrap();
    assert!(size < at && bold < at);
    assert!(find(&out[at..], &[0x1d, 0x21, 0x00]).is_some());
    assert!(find(&out[at..], &[0x1b, 0x45, 0]).is_some());
}

#[test]
fn nested_list_indents() {
    let out = render(vec![
        MdEvent::Start(MdTag::List(None)),
        MdEvent::Start(MdTag::Item),
        MdEvent::Text("a".to_string()),
        MdEvent::Start(MdTag::List(None)),
        MdEvent::Start(MdTag::Item),
        MdEvent::Text("b".to_string()),
        MdEvent::End(MdTag::Item),
        MdEvent::End(MdTag::List(None)),
        MdEvent::End(MdTag::Item),
        MdEvent::End(MdTag::List(None)),
    ]);
    let a = find(&out, b"* a").unwrap();
    let b = find(&out, b"* b").unwrap();
    let indent = find(&out, &Command::LeftMargin(28).as_bytes()).unwrap();
    assert!(a < indent && indent < b);
    assert!(find(&out[b..], &Command::LeftMargin(0).as_bytes()).is_some());
}

#[test]
fn unbalanced_end_is_refused() {
    let mut p = printer();
    let events = vec![MdEvent::Start(MdTag::Paragraph), MdEvent::End(MdTag::Emphasis)];
    assert_eq!(p.markdown(&events, &MarkdownRenderOptions::new(), &Vec::new()), Err(Error::UnexpectedTag));
    let mut p = printer();
    let events = vec![MdEvent::Text("x".to_string())];
    assert_eq!(p.markdown(&events, &MarkdownRenderOptions::new(), &Vec::new()), Err(Error::EmptyRenderTree));
    let mut p = printer();
    let events = vec![MdEvent::Start(MdTag::Table)];
    assert_eq!(p.markdown(&events, &MarkdownRenderOptions::new(), &Vec::new()), Err(Error::UnsupportedTag));
    let mut p = printer();
    assert_eq!(p.markdown(&vec![MdEvent::Html], &MarkdownRenderOptions::new(), &Vec::new()), Err(Error::MarkdownEventUnimplemented));
}

#[test]
fn image_ten_by_ten_threshold() {
    let pixels: Vec<u8> = (0..100).map(|i| if i % 3 == 0 { 0 } else { 200 }).collect();
    let raster = Raster::from_pixels(10, 10, pixels).unwrap();
    let mut opts = ImageOptions::new();
    opts.bit_map_algorithm(BitMapAlgorithm::Threshold(128));
    opts.filter_type(FilterType::Nearest);
    let img = EscposImage::new(raster, &opts);
    let out = img.as_bytes(8, Justification::Left, None);
    assert_eq!(&out[..3], &Command::LineSpacing(0).as_bytes()[..]);
    assert_eq!(&out[3..8], &[0x1b, 0x2a, 0x01, 8, 0]);
    assert_eq!(out[8 + 8], b'\n');
    assert_eq!(&out[17..], &Command::DefaultLineSpacing.as_bytes()[..]);
    assert_eq!(out.len(), 3 + 5 + 8 + 1 + 2);
}

#[test]
fn image_dithering_marks_dark_pixels() {
    let raster = Raster::from_pixels(4, 12, vec![30; 48]).unwrap();
    let img = EscposImage::new(raster, &ImageOptions::new());
    let out = img.as_bytes(16, Justification::Center, Some(30));
    let payload = &out[8..8 + 16];
    assert!(payload.iter().any(|b| *b != 0));
    assert_eq!(&out[out.len() - 3..], &Command::LineSpacing(30).as_bytes()[..]);
}

#[test]
fn pack_bitmap_bands() {
    // 3 columns, 9 rows: two bands; column 0 black on rows 0 and 8.
    let mut px = vec![255u8; 27];
    px[0] = 0;
    px[8 * 3] = 0;
    px[1 * 3 + 2] = 0;
    let raster = Raster::from_pixels(3, 9, px).unwrap();
    let out = pack_bitmap(&raster, None);
    assert_eq!(
        out,
        vec![
            0x1b, 0x33, 0, 0x1b, 0x2a, 1, 3, 0, 0x80, 0x00, 0x40, b'\n', 0x1b, 0x2a, 1, 3, 0, 0x80,
            0, 0, b'\n', 0x1b, 0x32
        ]
    );
    assert_eq!(Raster::from_pixels(3, 3, vec![0; 8]).map(|r| r.width), None);
}

#[test]
fn image_scale_limits() {
    let mut opts = ImageOptions::new();
    assert_eq!(opts.scale(0), Err(Error::InvalidImageScale));
    assert_eq!(opts.scale(1001), Err(Error::InvalidImageScale));
    assert_eq!(opts.scale(500), Ok(()));
}

#[test]
fn image_single_row_is_dithered() {
    // 4 x 1 image on a 12-dot line: floor(12 * 1 / (4 * 3)) = 1 row.
    let raster = Raster::from_pixels(4, 1, vec![30; 4]).unwrap();
    let img = EscposImage::new(raster, &ImageOptions::new());
    let out = img.as_bytes(12, Justification::Left, None);
    assert_eq!(out.len(), 3 + 5 + 12 + 1 + 2);
    assert!(out[8..20].iter().any(|b| *b == 0x80));
}
