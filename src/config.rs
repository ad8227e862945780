use crate::command::Font;
use vstd::prelude::*;

verus! {

pub const DEFAULT_WIDTH: usize = 576;

pub const DEFAULT_CHAR_SPACING: usize = 2;

pub const DEFAULT_FONTA_WIDTH: usize = 12;

pub const DEFAULT_FONTB_WIDTH: usize = 9;

pub const DEFAULT_FONTC_WIDTH: usize = 9;

pub const DEFAULT_FONTD_WIDTH: usize = 9;

pub const DEFAULT_FONTE_WIDTH: usize = 9;

pub const TM_T20II_80MM_WIDTH: usize = 576;

pub const TM_T20II_58MM_WIDTH: usize = 420;

pub const TM_T20II_CHAR_SPACING: usize = 2;

pub const TM_T20II_FONTA_WIDTH: usize = 12;

pub const TM_T20II_FONTB_WIDTH: usize = 9;

/// Largest glyph width, in dots, that a configuration may give a font.
pub const MAX_FONT_WIDTH: usize = 255;

/// Largest paper width, in dots, that a configuration may give.
pub const MAX_PAPER_WIDTH: usize = 0xFFFF;

/// Glyph cell width in dots of each of the five fonts.
#[derive(Clone, Copy, Debug)]
pub struct FontWidths {
    widths: [usize; 5],
}

impl FontWidths {
    pub closed spec fn spec_get(self, font: Font) -> usize {
        self.widths[font.spec_index() as int]
    }

    pub fn new() -> (r: FontWidths)
        ensures
            r.spec_get(Font::FontA) == DEFAULT_FONTA_WIDTH,
            r.spec_get(Font::FontB) == DEFAULT_FONTB_WIDTH,
            r.spec_get(Font::FontC) == DEFAULT_FONTC_WIDTH,
            r.spec_get(Font::FontD) == DEFAULT_FONTD_WIDTH,
            r.spec_get(Font::FontE) == DEFAULT_FONTE_WIDTH,
    {
        FontWidths {
            widths: [
                DEFAULT_FONTA_WIDTH,
                DEFAULT_FONTB_WIDTH,
                DEFAULT_FONTC_WIDTH,
                DEFAULT_FONTD_WIDTH,
                DEFAULT_FONTE_WIDTH,
            ],
        }
    }

    pub fn get(&self, font: &Font) -> (r: usize)
        ensures
            r == self.spec_get(*font),
    {
        self.widths[font.index()]
    }

    pub fn set(&mut self, font: &Font, width: usize)
        ensures
            final(self).spec_get(*font) == width,
            forall|f: Font| f != *font ==> final(self).spec_get(f) == old(self).spec_get(f),
    {
        let i = font.index();
        let mut w = self.widths;
        w.set(i, width);
        self.widths = w;
    }
}

/// Paper width in dots, default character spacing in dots, and font widths.
#[derive(Clone, Copy, Debug)]
pub struct PrinterConfig {
    pub width: usize,
    pub char_spacing: usize,
    pub font_widths: FontWidths,
}

impl PrinterConfig {
    /// Sizes that keep every width computation of a printer within machine integers.
    pub open spec fn in_bounds(self) -> bool {
        &&& self.width <= MAX_PAPER_WIDTH
        &&& forall|f: Font| #[trigger] self.font_widths.spec_get(f) <= MAX_FONT_WIDTH
    }

    /// The default configuration.
    pub fn new() -> (r: PrinterConfig)
        ensures
            r.width == DEFAULT_WIDTH,
            r.char_spacing == DEFAULT_CHAR_SPACING,
            r.font_widths.spec_get(Font::FontA) == DEFAULT_FONTA_WIDTH,
            r.font_widths.spec_get(Font::FontB) == DEFAULT_FONTB_WIDTH,
            r.font_widths.spec_get(Font::FontC) == DEFAULT_FONTC_WIDTH,
            r.font_widths.spec_get(Font::FontD) == DEFAULT_FONTD_WIDTH,
            r.font_widths.spec_get(Font::FontE) == DEFAULT_FONTE_WIDTH,
            r.in_bounds(),
    {
        let r = PrinterConfig {
            width: DEFAULT_WIDTH,
            char_spacing: DEFAULT_CHAR_SPACING,
            font_widths: FontWidths::new(),
        };
        proof {
            assert forall|f: Font| #[trigger] r.font_widths.spec_get(f) <= MAX_FONT_WIDTH by {
                match f {
                    Font::FontA => {},
                    Font::FontB => {},
                    Font::FontC => {},
                    Font::FontD => {},
                    Font::FontE => {},
                }
            }
        }
        r
    }

    pub fn width(&mut self, width: usize)
        ensures
            *final(self) == (PrinterConfig { width, ..*old(self) }),
    {
        self.width = width;
    }

    pub fn font_width(&mut self, font: &Font, width: usize)
        ensures
            final(self).width == old(self).width,
            final(self).char_spacing == old(self).char_spacing,
            final(self).font_widths.spec_get(*font) == width,
            forall|f: Font| f != *font ==> final(self).font_widths.spec_get(f) == old(self).font_widths.spec_get(f),
    {
        self.font_widths.set(font, width);
    }

    pub fn char_spacing(&mut self, char_spacing: usize)
        ensures
            *final(self) == (PrinterConfig { char_spacing, ..*old(self) }),
    {
        self.char_spacing = char_spacing;
    }

    /// The preset of an 80 mm TM-T20II.
    pub fn tm_t20ii() -> (r: PrinterConfig)
        ensures
            r.width == TM_T20II_80MM_WIDTH,
            r.char_spacing == TM_T20II_CHAR_SPACING,
            r.font_widths.spec_get(Font::FontA) == TM_T20II_FONTA_WIDTH,
            r.font_widths.spec_get(Font::FontB) == TM_T20II_FONTB_WIDTH,
            r.font_widths.spec_get(Font::FontC) == DEFAULT_FONTC_WIDTH,
            r.font_widths.spec_get(Font::FontD) == DEFAULT_FONTD_WIDTH,
            r.font_widths.spec_get(Font::FontE) == DEFAULT_FONTE_WIDTH,
            r.in_bounds(),
    {
        let mut this = PrinterConfig::new();
        this.width(TM_T20II_80MM_WIDTH);
        this.char_spacing(TM_T20II_CHAR_SPACING);
        this.font_width(&Font::FontA, TM_T20II_FONTA_WIDTH);
        this.font_width(&Font::FontB, TM_T20II_FONTB_WIDTH);
        proof {
            assert forall|f: Font| #[trigger] this.font_widths.spec_get(f) <= MAX_FONT_WIDTH by {
                match f {
                    Font::FontA => {},
                    Font::FontB => {},
                    Font::FontC => {},
                    Font::FontD => {},
                    Font::FontE => {},
                }
            }
        }
        this
    }
}

} // verus!
