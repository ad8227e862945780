use escpos_md::command::{
    CharMagnification, Charset, CodeTable, Command, Font, Justification, UnderlineThickness,
};
use escpos_md::config::{PrinterConfig, TM_T20II_80MM_WIDTH};
use escpos_md::split_words::split_words;
use escpos_md::{Error, Printer};

fn printer() -> Printer<Vec<u8>> {
    PrinterConfig::tm_t20ii().build(Vec::new()).unwrap()
}

#[test]
fn command_bytes() {
    assert_eq!(Command::Cut.as_bytes(), vec![0x1d, 0x56, 0x41, 0x96]);
    assert_eq!(Command::Init.as_bytes(), vec![0x1d, 0x40]);
    assert_eq!(Command::CodeTable(CodeTable::Latin2).as_bytes(), vec![0x1b, 0x74, 0x02]);
    assert_eq!(Command::Underline(UnderlineThickness::TwoDot).as_bytes(), vec![0x1b, 0x2d, 2]);
    assert_eq!(Command::LeftMargin(0x1234).as_bytes(), vec![0x1d, 0x4c, 0x34, 0x12]);
    assert_eq!(Command::Justification(Justification::Right).as_bytes(), vec![0x1b, 0x61, 2]);
    assert_eq!(Command::SplitWords(true).as_bytes(), Vec::<u8>::new());
    assert_eq!(Command::Bold(true).as_bytes(), vec![0x1b, 0x45, 1]);
}

#[test]
fn decode_round_trip() {
    let cmds = vec![
        Command::Cut,
        Command::Init,
        Command::PrintModeDefault,
        Command::Charset(Charset::Korea),
        Command::CodeTable(CodeTable::USA),
        Command::Font(Font::FontC),
        Command::Underline(UnderlineThickness::OneDot),
        Command::Bold(false),
        Command::DoubleStrike(true),
        Command::WhiteBlackReverse(true),
        Command::Bitmap,
        Command::FeedPaper(7),
        Command::FeedLines(255),
        Command::LineSpacing(30),
        Command::DefaultLineSpacing,
        Command::CharSpacing(2),
        Command::CharSize(CharMagnification::new(8, 1).unwrap()),
        Command::LeftMargin(65535),
        Command::Justification(Justification::Center),
    ];
    for c in cmds {
        assert_eq!(Command::decode(&c.as_bytes()), Some(c));
    }
    assert_eq!(Command::decode(&[0x1b, 0x45, 2]), None);
}

#[test]
fn magnification_byte() {
    assert_eq!(CharMagnification::new(3, 3).unwrap().to_byte(), 0x22);
    assert_eq!(CharMagnification::new(1, 8).unwrap().to_byte(), 0x07);
    assert_eq!(CharMagnification::new(8, 1).unwrap().to_byte(), 0x70);
    assert_eq!(CharMagnification::new(0, 1), Err(Error::InvalidCharMagnification));
    assert_eq!(CharMagnification::new(1, 9), Err(Error::InvalidCharMagnification));
    let c = CharMagnification::clamped(0, 12);
    assert_eq!((c.width(), c.height()), (1, 8));
    let mut seen = std::collections::HashSet::new();
    for w in 1..=8 {
        for h in 1..=8 {
            assert!(seen.insert(CharMagnification::new(w, h).unwrap().to_byte()));
        }
    }
}

#[test]
fn split_words_wraps_long_word() {
    let mut content = b"hello world".to_vec();
    let off = split_words(&mut content, 0, 8, 1);
    assert_eq!(content, b"hello \nworld".to_vec());
    assert_eq!(off, 5);
}

#[test]
fn split_words_keeps_fitting_text() {
    let mut content = b"ab cd".to_vec();
    let off = split_words(&mut content, 0, 10, 2);
    assert_eq!(content, b"ab cd".to_vec());
    // A line filled to the last dot starts the next one.
    assert_eq!(off, 0);
    let mut content = b"ab\ncd".to_vec();
    assert_eq!(split_words(&mut content, 3, 10, 1), 2);
    let mut empty: Vec<u8> = Vec::new();
    assert_eq!(split_words(&mut empty, 4, 10, 1), 4);
}

#[test]
fn split_words_offset_counts_since_line_break() {
    let mut content = b"one two\nthree four five".to_vec();
    let off = split_words(&mut content, 0, 12, 1);
    let last_line = content.split(|b| *b == b'\n').last().unwrap().len();
    assert_eq!(off % 12, last_line % 12);
    for (i, b) in content.iter().enumerate() {
        if *b == b'\n' && i + 1 < content.len() {
            assert!(content[i + 1] != b' ');
        }
    }
}

#[test]
fn feed_lines_splits_by_255() {
    let mut p = printer();
    p.feed_lines(600).unwrap();
    assert_eq!(
        p.device().clone(),
        vec![0x1b, 0x64, 255, 0x1b, 0x64, 255, 0x1b, 0x64, 90]
    );
    let mut p = printer();
    p.feed_lines(255).unwrap();
    assert_eq!(p.device().clone(), vec![0x1b, 0x64, 255]);
    let mut p = printer();
    p.feed_paper(0).unwrap();
    assert_eq!(p.device().clone(), vec![0x1b, 0x4a, 0]);
}

#[test]
fn spacing_limits() {
    let mut p = printer();
    assert_eq!(p.char_spacing(256), Err(Error::InvalidSpacingParam));
    assert_eq!(p.line_spacing(Some(300)), Err(Error::InvalidSpacingParam));
    assert!(p.device().is_empty());
    p.line_spacing(Some(40)).unwrap();
    assert_eq!(p.state().line_spacing, Some(40));
    p.line_spacing(None).unwrap();
    assert_eq!(p.state().line_spacing, None);
    let mut cfg = PrinterConfig::new();
    cfg.char_spacing(300);
    assert_eq!(cfg.build(Vec::<u8>::new()).err(), Some(Error::InvalidSpacingParam));
}

#[test]
fn reset_sequence() {
    let mut p = printer();
    p.reset().unwrap();
    let mut want = Vec::new();
    for c in [
        Command::Init,
        Command::PrintModeDefault,
        Command::WhiteBlackReverse(false),
        Command::DoubleStrike(false),
        Command::CharSpacing(2),
        Command::DefaultLineSpacing,
        Command::LeftMargin(0),
        Command::Justification(Justification::Left),
    ] {
        want.extend(c.as_bytes());
    }
    assert_eq!(p.device().clone(), want);
    assert!(p.state().split_words);
}

#[test]
fn print_encodes_cp437() {
    let mut p = printer();
    p.print("Héllo").unwrap();
    assert_eq!(p.device().clone(), vec![b'H', 0x82, b'l', b'l', b'o']);
    let mut p = printer();
    assert_eq!(p.print("żurek"), Err(Error::Cp437));
    assert!(p.device().is_empty());
    let mut p = printer();
    p.println("─").unwrap();
    assert_eq!(p.device().clone(), vec![0xC4, b'\n']);
}

#[test]
fn print_wraps_at_printable_width() {
    let mut p = printer();
    // FontA is 12 dots plus 2 of spacing: 14 dots a character, 41 on 576 dots.
    let word = "x".repeat(30);
    p.print(&format!("{} {}", word, word)).unwrap();
    let out = p.device().clone();
    assert_eq!(out.iter().filter(|b| **b == b'\n').count(), 1);
    assert_eq!(p.state().left_offset, 30 * 14);
    assert_eq!(p.printable_width(), TM_T20II_80MM_WIDTH);
}

#[test]
fn command_updates_state() {
    let mut p = printer();
    p.command(&Command::LeftMargin(100)).unwrap();
    assert_eq!(p.printable_width(), 476);
    p.command(&Command::Font(Font::FontB)).unwrap();
    p.command(&Command::CharSize(CharMagnification::new(2, 1).unwrap())).unwrap();
    assert_eq!(p.calc_char_size(), (9 + 2) * 2);
    p.command(&Command::Init).unwrap();
    assert_eq!(p.state().font, Font::FontA);
    assert_eq!(p.state().char_magnification, CharMagnification::one());
}

#[test]
fn offset_stays_below_printable_width() {
    let mut cfg = PrinterConfig::tm_t20ii();
    cfg.width(28);
    let mut p = cfg.build(Vec::new()).unwrap();
    p.print("ab").unwrap();
    assert_eq!(p.state().left_offset, 0);
    assert!(p.state().left_offset < p.printable_width());
}

#[test]
fn whitespace_after_wrapped_word_is_processed() {
    // "abcdefgh" moves to a new line; the newline after it starts another line.
    let mut content = b"abcdefgh\nij".to_vec();
    let off = split_words(&mut content, 5, 10, 1);
    assert_eq!(content, b"\nabcdefgh\nij".to_vec());
    assert_eq!(off, 2);
}
