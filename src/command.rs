use crate::error::Error;
use vstd::prelude::*;

verus! {

/// Smallest magnification factor a printer accepts.
pub const PARAM_MIN: u8 = 1;

/// Largest magnification factor a printer accepts.
pub const PARAM_MAX: u8 = 8;

/// Horizontal and vertical character magnification, each within `[1, 8]`.
#[derive(Clone, Copy, Debug, PartialEq, Eq, Structural)]
pub struct CharMagnification {
    width: u8,
    height: u8,
}

/// The byte that selects a magnification: height in the low nibble, width in the high one.
pub open spec fn magnification_byte(width: int, height: int) -> int {
    (height - 1) + 16 * (width - 1)
}

impl CharMagnification {
    #[verifier::type_invariant]
    spec fn in_range(self) -> bool {
        PARAM_MIN <= self.width <= PARAM_MAX && PARAM_MIN <= self.height <= PARAM_MAX
    }

    pub closed spec fn spec_width(self) -> u8 {
        self.width
    }

    pub closed spec fn spec_height(self) -> u8 {
        self.height
    }

    /// Both components lie in `[1, 8]`; every value built by this type is valid.
    pub open spec fn valid(self) -> bool {
        1 <= self.spec_width() <= 8 && 1 <= self.spec_height() <= 8
    }

    /// A value at hand is valid.
    pub fn check_valid(&self)
        ensures
            self.valid(),
    {
        proof {
            use_type_invariant(self);
        }
    }

    /// Builds a magnification, rejecting components outside `[1, 8]`.
    pub fn new(width: u8, height: u8) -> (r: Result<CharMagnification, Error>)
        ensures
            (1 <= width <= 8 && 1 <= height <= 8) <==> r is Ok,
            r is Ok ==> r->Ok_0.spec_width() == width && r->Ok_0.spec_height() == height,
            r is Err ==> r->Err_0 == Error::InvalidCharMagnification,
    {
        Self::check_param(width)?;
        Self::check_param(height)?;
        Ok(CharMagnification { width, height })
    }

    pub closed spec fn spec_clamped(width: u8, height: u8) -> CharMagnification {
        CharMagnification { width: clamp_param(width), height: clamp_param(height) }
    }

    /// Builds a magnification, moving each component into `[1, 8]`.
    pub fn clamped(width: u8, height: u8) -> (r: CharMagnification)
        ensures
            r == Self::spec_clamped(width, height),
            r.spec_width() == clamp_param(width),
            r.spec_height() == clamp_param(height),
    {
        let w = if width < PARAM_MIN {
            PARAM_MIN
        } else if width > PARAM_MAX {
            PARAM_MAX
        } else {
            width
        };
        let h = if height < PARAM_MIN {
            PARAM_MIN
        } else if height > PARAM_MAX {
            PARAM_MAX
        } else {
            height
        };
        CharMagnification { width: w, height: h }
    }

    pub closed spec fn spec_one() -> CharMagnification {
        CharMagnification { width: 1, height: 1 }
    }

    /// Magnification one by one.
    pub fn one() -> (r: CharMagnification)
        ensures
            r == Self::spec_one(),
            r.spec_width() == 1 && r.spec_height() == 1,
    {
        CharMagnification { width: 1, height: 1 }
    }

    pub fn width(&self) -> (r: u8)
        ensures
            r == self.spec_width(),
            1 <= r <= 8,
    {
        proof {
            use_type_invariant(self);
        }
        self.width
    }

    pub fn height(&self) -> (r: u8)
        ensures
            r == self.spec_height(),
            1 <= r <= 8,
    {
        proof {
            use_type_invariant(self);
        }
        self.height
    }

    /// Accepts a component in `[1, 8]`.
    pub fn check_param(param: u8) -> (r: Result<(), Error>)
        ensures
            r is Ok <==> 1 <= param <= 8,
            r is Err ==> r->Err_0 == Error::InvalidCharMagnification,
    {
        if param < PARAM_MIN || param > PARAM_MAX {
            Err(Error::InvalidCharMagnification)
        } else {
            Ok(())
        }
    }

    pub open spec fn spec_to_byte(self) -> u8 {
        magnification_byte(self.spec_width() as int, self.spec_height() as int) as u8
    }

    /// The byte of the character size command: `(height - 1) | ((width - 1) << 4)`.
    pub fn to_byte(&self) -> (r: u8)
        ensures
            r == self.spec_to_byte(),
            r as int == magnification_byte(self.spec_width() as int, self.spec_height() as int),
            r == ((self.spec_height() - 1) as u8 | (((self.spec_width() - 1) as u8) << 4u8)),
    {
        proof {
            use_type_invariant(self);
        }
        let h: u8 = self.height - 1;
        let w: u8 = self.width - 1;
        assert((h | (w << 4u8)) == h + 16 * w) by (bit_vector)
            requires
                h < 8,
                w < 8,
        ;
        h | (w << 4)
    }

    /// Reads a magnification back from its byte; both nibbles must be below 8.
    pub fn from_byte(b: u8) -> (r: Option<CharMagnification>)
        ensures
            r == spec_magnification_from_byte(b),
    {
        let h: u8 = b % 16;
        let w: u8 = b / 16;
        if h < 8 && w < 8 {
            Some(CharMagnification { width: w + 1, height: h + 1 })
        } else {
            None
        }
    }
}

/// A component moved into `[1, 8]`.
pub open spec fn clamp_param(p: u8) -> u8 {
    if p < 1 {
        1
    } else if p > 8 {
        8
    } else {
        p
    }
}

/// The magnification whose byte is `b`, when both nibbles are below 8.
pub closed spec fn spec_magnification_from_byte(b: u8) -> Option<CharMagnification> {
    if b % 16 < 8 && b / 16 < 8 {
        Some(CharMagnification { width: (b / 16 + 1) as u8, height: (b % 16 + 1) as u8 })
    } else {
        None
    }
}

/// Reading back the byte of a magnification gives that magnification.
pub proof fn lemma_magnification_byte_round_trip(m: CharMagnification)
    requires
        m.valid(),
    ensures
        spec_magnification_from_byte(m.spec_to_byte()) == Some(m),
{
}

/// Distinct magnifications have distinct bytes.
pub proof fn lemma_magnification_byte_injective(a: CharMagnification, b: CharMagnification)
    requires
        a.valid(),
        b.valid(),
    ensures
        a.spec_to_byte() == b.spec_to_byte() ==> a == b,
{
    lemma_magnification_byte_round_trip(a);
    lemma_magnification_byte_round_trip(b);
}

/// Code tables of the printer's character generator.
#[derive(Clone, Copy, Debug, PartialEq, Eq, Structural)]
pub enum CodeTable {
    USA,
    Latin2,
}

impl CodeTable {
    pub open spec fn spec_byte(self) -> u8 {
        match self {
            CodeTable::USA => 0x00,
            CodeTable::Latin2 => 0x02,
        }
    }

    /// The parameter byte of the code table command.
    pub fn as_bytes(&self) -> (r: Vec<u8>)
        ensures
            r@ == seq![self.spec_byte()],
    {
        match self {
            CodeTable::USA => vec![0x00],
            CodeTable::Latin2 => vec![0x02],
        }
    }
}

/// International character sets.
#[derive(Clone, Copy, Debug, PartialEq, Eq, Structural)]
pub enum Charset {
    Usa,
    France,
    Germany,
    Uk,
    DenmarkI,
    Sweden,
    Italy,
    SpainI,
    Japan,
    Norway,
    DenmarkII,
    SpainII,
    LatinAmerica,
    Korea,
}

impl Charset {
    pub open spec fn spec_byte(self) -> u8 {
        match self {
            Charset::Usa => 0,
            Charset::France => 1,
            Charset::Germany => 2,
            Charset::Uk => 3,
            Charset::DenmarkI => 4,
            Charset::Sweden => 5,
            Charset::Italy => 6,
            Charset::SpainI => 7,
            Charset::Japan => 8,
            Charset::Norway => 9,
            Charset::DenmarkII => 10,
            Charset::SpainII => 11,
            Charset::LatinAmerica => 12,
            Charset::Korea => 13,
        }
    }

    /// The parameter byte of the character set command.
    pub fn as_bytes(&self) -> (r: Vec<u8>)
        ensures
            r@ == seq![self.spec_byte()],
    {
        let b: u8 = match self {
            Charset::Usa => 0,
            Charset::France => 1,
            Charset::Germany => 2,
            Charset::Uk => 3,
            Charset::DenmarkI => 4,
            Charset::Sweden => 5,
            Charset::Italy => 6,
            Charset::SpainI => 7,
            Charset::Japan => 8,
            Charset::Norway => 9,
            Charset::DenmarkII => 10,
            Charset::SpainII => 11,
            Charset::LatinAmerica => 12,
            Charset::Korea => 13,
        };
        vec![b]
    }
}

/// The printer's five fonts.
#[derive(Clone, Copy, Debug, PartialEq, Eq, Structural)]
pub enum Font {
    FontA,
    FontB,
    FontC,
    FontD,
    FontE,
}

impl Font {
    /// Position of the font in a width table, and its parameter byte.
    pub open spec fn spec_index(self) -> u8 {
        match self {
            Font::FontA => 0,
            Font::FontB => 1,
            Font::FontC => 2,
            Font::FontD => 3,
            Font::FontE => 4,
        }
    }

    pub fn index(&self) -> (r: usize)
        ensures
            r == self.spec_index(),
            r < 5,
    {
        match self {
            Font::FontA => 0,
            Font::FontB => 1,
            Font::FontC => 2,
            Font::FontD => 3,
            Font::FontE => 4,
        }
    }

    /// The parameter byte of the font command.
    pub fn as_bytes(&self) -> (r: Vec<u8>)
        ensures
            r@ == seq![self.spec_index()],
    {
        let i = self.index();
        vec![i as u8]
    }

    /// The font that the printer selects after initialisation.
    pub fn default_font() -> (r: Font)
        ensures
            r == Font::FontA,
    {
        Font::FontA
    }
}

#[derive(Clone, Copy, Debug, PartialEq, Eq, Structural)]
pub enum UnderlineThickness {
    Off,
    OneDot,
    TwoDot,
}

impl UnderlineThickness {
    pub open spec fn spec_byte(self) -> u8 {
        match self {
            UnderlineThickness::Off => 0,
            UnderlineThickness::OneDot => 1,
            UnderlineThickness::TwoDot => 2,
        }
    }
}

#[derive(Clone, Copy, Debug, PartialEq, Eq, Structural)]
pub enum Justification {
    Left,
    Center,
    Right,
}

impl Justification {
    pub open spec fn spec_byte(self) -> u8 {
        match self {
            Justification::Left => 0,
            Justification::Center => 1,
            Justification::Right => 2,
        }
    }
}

/// ESC/POS operations.
#[derive(Clone, Copy, Debug, PartialEq, Eq, Structural)]
pub enum Command {
    /// Cuts the paper after 0x96 vertical units.
    Cut,
    /// Initialises the printer (ESC @).
    Init,
    /// Default print mode (ESC ! 0).
    PrintModeDefault,
    /// International character set (ESC R).
    Charset(Charset),
    /// Code table (ESC t).
    CodeTable(CodeTable),
    /// Font (ESC M).
    Font(Font),
    Underline(UnderlineThickness),
    Bold(bool),
    DoubleStrike(bool),
    WhiteBlackReverse(bool),
    /// Bit image mode (ESC *); its parameters follow separately.
    Bitmap,
    FeedPaper(u8),
    FeedLines(u8),
    LineSpacing(u8),
    DefaultLineSpacing,
    CharSpacing(u8),
    CharSize(CharMagnification),
    /// Turns word wrapping on or off; sends nothing to the printer.
    SplitWords(bool),
    LeftMargin(u16),
    Justification(Justification),
}

pub open spec fn bool_byte(b: bool) -> u8 {
    if b {
        1
    } else {
        0
    }
}

impl Command {
    /// The bytes that carry the command to the printer.
    pub open spec fn spec_bytes(self) -> Seq<u8> {
        match self {
            Command::Cut => seq![0x1du8, 0x56, 0x41, 0x96],
            Command::Init => seq![0x1du8, 0x40],
            Command::PrintModeDefault => seq![0x1bu8, 0x21, 0x00],
            Command::Charset(c) => seq![0x1bu8, 0x52, c.spec_byte()],
            Command::CodeTable(t) => seq![0x1bu8, 0x74, t.spec_byte()],
            Command::Font(f) => seq![0x1bu8, 0x4d, f.spec_index()],
            Command::Underline(t) => seq![0x1bu8, 0x2d, t.spec_byte()],
            Command::Bold(b) => seq![0x1bu8, 0x45, bool_byte(b)],
            Command::DoubleStrike(b) => seq![0x1bu8, 0x47, bool_byte(b)],
            Command::WhiteBlackReverse(b) => seq![0x1du8, 0x42, bool_byte(b)],
            Command::Bitmap => seq![0x1bu8, 0x2a],
            Command::FeedPaper(n) => seq![0x1bu8, 0x4a, n],
            Command::FeedLines(n) => seq![0x1bu8, 0x64, n],
            Command::LineSpacing(n) => seq![0x1bu8, 0x33, n],
            Command::DefaultLineSpacing => seq![0x1bu8, 0x32],
            Command::CharSpacing(n) => seq![0x1bu8, 0x20, n],
            Command::CharSize(m) => seq![0x1du8, 0x21, m.spec_to_byte()],
            Command::SplitWords(_) => seq![],
            Command::LeftMargin(m) => seq![0x1du8, 0x4c, (m % 256) as u8, (m / 256) as u8],
            Command::Justification(j) => seq![0x1bu8, 0x61, j.spec_byte()],
        }
    }

    /// Returns the byte representation of the command.
    pub fn as_bytes(&self) -> (r: Vec<u8>)
        ensures
            r@ == self.spec_bytes(),
    {
        match self {
            Command::Cut => vec![0x1d, 0x56, 0x41, 0x96],
            Command::Init => vec![0x1d, 0x40],
            Command::PrintModeDefault => vec![0x1b, 0x21, 0x00],
            Command::Charset(charset) => {
                let mut res = vec![0x1b, 0x52];
                let mut tail = charset.as_bytes();
                res.append(&mut tail);
                res
            },
            Command::CodeTable(code_table) => {
                let mut res = vec![0x1b, 0x74];
                let mut tail = code_table.as_bytes();
                res.append(&mut tail);
                res
            },
            Command::Font(font) => {
                let mut res = vec![0x1b, 0x4d];
                let mut tail = font.as_bytes();
                res.append(&mut tail);
                res
            },
            Command::Underline(thickness) => {
                let b: u8 = match thickness {
                    UnderlineThickness::Off => 0,
                    UnderlineThickness::OneDot => 1,
                    UnderlineThickness::TwoDot => 2,
                };
                vec![0x1b, 0x2d, b]
            },
            Command::Bold(bold) => vec![0x1b, 0x45, flag_byte(*bold)],
            Command::DoubleStrike(on) => vec![0x1b, 0x47, flag_byte(*on)],
            Command::WhiteBlackReverse(on) => vec![0x1d, 0x42, flag_byte(*on)],
            Command::Bitmap => vec![0x1b, 0x2a],
            Command::FeedPaper(units) => vec![0x1b, 0x4a, *units],
            Command::FeedLines(lines) => vec![0x1b, 0x64, *lines],
            Command::LineSpacing(units) => vec![0x1b, 0x33, *units],
            Command::DefaultLineSpacing => vec![0x1b, 0x32],
            Command::CharSpacing(units) => vec![0x1b, 0x20, *units],
            Command::CharSize(magnification) => vec![0x1d, 0x21, magnification.to_byte()],
            Command::SplitWords(_) => vec![],
            Command::LeftMargin(margin) => {
                let lo: u8 = (*margin % 256) as u8;
                let hi: u8 = (*margin / 256) as u8;
                vec![0x1d, 0x4c, lo, hi]
            },
            Command::Justification(justification) => {
                let b: u8 = match justification {
                    Justification::Left => 0,
                    Justification::Center => 1,
                    Justification::Right => 2,
                };
                vec![0x1b, 0x61, b]
            },
        }
    }

    /// Reads one command back from its bytes, the whole of `b`.
    pub fn decode(b: &[u8]) -> (r: Option<Command>)
        ensures
            r == spec_decode(b@),
    {
        let n = b.len();
        if n == 2 {
            if b[0] == 0x1d && b[1] == 0x40 {
                return Some(Command::Init);
            } else if b[0] == 0x1b && b[1] == 0x2a {
                return Some(Command::Bitmap);
            } else if b[0] == 0x1b && b[1] == 0x32 {
                return Some(Command::DefaultLineSpacing);
            }
            None
        } else if n == 3 {
            let p = b[2];
            if b[0] == 0x1b {
                match b[1] {
                    0x21 => if p == 0 {
                        Some(Command::PrintModeDefault)
                    } else {
                        None
                    },
                    0x52 => match charset_from_byte(p) {
                        Some(c) => Some(Command::Charset(c)),
                        None => None,
                    },
                    0x74 => if p == 0 {
                        Some(Command::CodeTable(CodeTable::USA))
                    } else if p == 2 {
                        Some(Command::CodeTable(CodeTable::Latin2))
                    } else {
                        None
                    },
                    0x4d => match font_from_byte(p) {
                        Some(f) => Some(Command::Font(f)),
                        None => None,
                    },
                    0x2d => if p == 0 {
                        Some(Command::Underline(UnderlineThickness::Off))
                    } else if p == 1 {
                        Some(Command::Underline(UnderlineThickness::OneDot))
                    } else if p == 2 {
                        Some(Command::Underline(UnderlineThickness::TwoDot))
                    } else {
                        None
                    },
                    0x45 => match flag_from_byte(p) {
                        Some(f) => Some(Command::Bold(f)),
                        None => None,
                    },
                    0x47 => match flag_from_byte(p) {
                        Some(f) => Some(Command::DoubleStrike(f)),
                        None => None,
                    },
                    0x4a => Some(Command::FeedPaper(p)),
                    0x64 => Some(Command::FeedLines(p)),
                    0x33 => Some(Command::LineSpacing(p)),
                    0x20 => Some(Command::CharSpacing(p)),
                    0x61 => if p == 0 {
                        Some(Command::Justification(Justification::Left))
                    } else if p == 1 {
                        Some(Command::Justification(Justification::Center))
                    } else if p == 2 {
                        Some(Command::Justification(Justification::Right))
                    } else {
                        None
                    },
                    _ => None,
                }
            } else if b[0] == 0x1d {
                if b[1] == 0x42 {
                    match flag_from_byte(p) {
                        Some(f) => Some(Command::WhiteBlackReverse(f)),
                        None => None,
                    }
                } else if b[1] == 0x21 {
                    match CharMagnification::from_byte(p) {
                        Some(m) => Some(Command::CharSize(m)),
                        None => None,
                    }
                } else {
                    None
                }
            } else {
                None
            }
        } else if n == 4 {
            if b[0] == 0x1d && b[1] == 0x56 && b[2] == 0x41 && b[3] == 0x96 {
                Some(Command::Cut)
            } else if b[0] == 0x1d && b[1] == 0x4c {
                Some(Command::LeftMargin(b[2] as u16 + 256 * (b[3] as u16)))
            } else {
                None
            }
        } else {
            None
        }
    }
}

fn flag_byte(b: bool) -> (r: u8)
    ensures
        r == bool_byte(b),
{
    if b {
        1
    } else {
        0
    }
}

pub open spec fn spec_flag_from_byte(p: u8) -> Option<bool> {
    if p == 0 {
        Some(false)
    } else if p == 1 {
        Some(true)
    } else {
        None
    }
}

fn flag_from_byte(p: u8) -> (r: Option<bool>)
    ensures
        r == spec_flag_from_byte(p),
{
    if p == 0 {
        Some(false)
    } else if p == 1 {
        Some(true)
    } else {
        None
    }
}

pub open spec fn spec_font_from_byte(p: u8) -> Option<Font> {
    if p == 0 {
        Some(Font::FontA)
    } else if p == 1 {
        Some(Font::FontB)
    } else if p == 2 {
        Some(Font::FontC)
    } else if p == 3 {
        Some(Font::FontD)
    } else if p == 4 {
        Some(Font::FontE)
    } else {
        None
    }
}

fn font_from_byte(p: u8) -> (r: Option<Font>)
    ensures
        r == spec_font_from_byte(p),
{
    if p == 0 {
        Some(Font::FontA)
    } else if p == 1 {
        Some(Font::FontB)
    } else if p == 2 {
        Some(Font::FontC)
    } else if p == 3 {
        Some(Font::FontD)
    } else if p == 4 {
        Some(Font::FontE)
    } else {
        None
    }
}

pub open spec fn spec_charset_from_byte(p: u8) -> Option<Charset> {
    if p == 0 {
        Some(Charset::Usa)
    } else if p == 1 {
        Some(Charset::France)
    } else if p == 2 {
        Some(Charset::Germany)
    } else if p == 3 {
        Some(Charset::Uk)
    } else if p == 4 {
        Some(Charset::DenmarkI)
    } else if p == 5 {
        Some(Charset::Sweden)
    } else if p == 6 {
        Some(Charset::Italy)
    } else if p == 7 {
        Some(Charset::SpainI)
    } else if p == 8 {
        Some(Charset::Japan)
    } else if p == 9 {
        Some(Charset::Norway)
    } else if p == 10 {
        Some(Charset::DenmarkII)
    } else if p == 11 {
        Some(Charset::SpainII)
    } else if p == 12 {
        Some(Charset::LatinAmerica)
    } else if p == 13 {
        Some(Charset::Korea)
    } else {
        None
    }
}

fn charset_from_byte(p: u8) -> (r: Option<Charset>)
    ensures
        r == spec_charset_from_byte(p),
{
    if p == 0 {
        Some(Charset::Usa)
    } else if p == 1 {
        Some(Charset::France)
    } else if p == 2 {
        Some(Charset::Germany)
    } else if p == 3 {
        Some(Charset::Uk)
    } else if p == 4 {
        Some(Charset::DenmarkI)
    } else if p == 5 {
        Some(Charset::Sweden)
    } else if p == 6 {
        Some(Charset::Italy)
    } else if p == 7 {
        Some(Charset::SpainI)
    } else if p == 8 {
        Some(Charset::Japan)
    } else if p == 9 {
        Some(Charset::Norway)
    } else if p == 10 {
        Some(Charset::DenmarkII)
    } else if p == 11 {
        Some(Charset::SpainII)
    } else if p == 12 {
        Some(Charset::LatinAmerica)
    } else if p == 13 {
        Some(Charset::Korea)
    } else {
        None
    }
}

/// The command that a byte string encodes, when it encodes exactly one.
pub open spec fn spec_decode(b: Seq<u8>) -> Option<Command> {
    if b.len() == 2 {
        if b[0] == 0x1d && b[1] == 0x40 {
            Some(Command::Init)
        } else if b[0] == 0x1b && b[1] == 0x2a {
            Some(Command::Bitmap)
        } else if b[0] == 0x1b && b[1] == 0x32 {
            Some(Command::DefaultLineSpacing)
        } else {
            None
        }
    } else if b.len() == 3 {
        let p = b[2];
        if b[0] == 0x1b && b[1] == 0x21 {
            if p == 0 {
                Some(Command::PrintModeDefault)
            } else {
                None
            }
        } else if b[0] == 0x1b && b[1] == 0x52 {
            match spec_charset_from_byte(p) {
                Some(c) => Some(Command::Charset(c)),
                None => None,
            }
        } else if b[0] == 0x1b && b[1] == 0x74 {
            if p == 0 {
                Some(Command::CodeTable(CodeTable::USA))
            } else if p == 2 {
                Some(Command::CodeTable(CodeTable::Latin2))
            } else {
                None
            }
        } else if b[0] == 0x1b && b[1] == 0x4d {
            match spec_font_from_byte(p) {
                Some(f) => Some(Command::Font(f)),
                None => None,
            }
        } else if b[0] == 0x1b && b[1] == 0x2d {
            if p == 0 {
                Some(Command::Underline(UnderlineThickness::Off))
            } else if p == 1 {
                Some(Command::Underline(UnderlineThickness::OneDot))
            } else if p == 2 {
                Some(Command::Underline(UnderlineThickness::TwoDot))
            } else {
                None
            }
        } else if b[0] == 0x1b && b[1] == 0x45 {
            match spec_flag_from_byte(p) {
                Some(f) => Some(Command::Bold(f)),
                None => None,
            }
        } else if b[0] == 0x1b && b[1] == 0x47 {
            match spec_flag_from_byte(p) {
                Some(f) => Some(Command::DoubleStrike(f)),
                None => None,
            }
        } else if b[0] == 0x1b && b[1] == 0x4a {
            Some(Command::FeedPaper(p))
        } else if b[0] == 0x1b && b[1] == 0x64 {
            Some(Command::FeedLines(p))
        } else if b[0] == 0x1b && b[1] == 0x33 {
            Some(Command::LineSpacing(p))
        } else if b[0] == 0x1b && b[1] == 0x20 {
            Some(Command::CharSpacing(p))
        } else if b[0] == 0x1b && b[1] == 0x61 {
            if p == 0 {
                Some(Command::Justification(Justification::Left))
            } else if p == 1 {
                Some(Command::Justification(Justification::Center))
            } else if p == 2 {
                Some(Command::Justification(Justification::Right))
            } else {
                None
            }
        } else if b[0] == 0x1d && b[1] == 0x42 {
            match spec_flag_from_byte(p) {
                Some(f) => Some(Command::WhiteBlackReverse(f)),
                None => None,
            }
        } else if b[0] == 0x1d && b[1] == 0x21 {
            match spec_magnification_from_byte(p) {
                Some(m) => Some(Command::CharSize(m)),
                None => None,
            }
        } else {
            None
        }
    } else if b.len() == 4 {
        if b[0] == 0x1d && b[1] == 0x56 && b[2] == 0x41 && b[3] == 0x96 {
            Some(Command::Cut)
        } else if b[0] == 0x1d && b[1] == 0x4c {
            Some(Command::LeftMargin((b[2] + 256 * b[3]) as u16))
        } else {
            None
        }
    } else {
        None
    }
}

/// Decoding the bytes of a command gives the command back; only `SplitWords`,
/// which sends no bytes, is left out.
pub proof fn lemma_decode_as_bytes(c: Command)
    requires
        !(c is SplitWords),
        c is CharSize ==> c->CharSize_0.valid(),
    ensures
        spec_decode(c.spec_bytes()) == Some(c),
{
    match c {
        Command::CharSize(m) => {
            lemma_magnification_byte_round_trip(m);
        },
        Command::LeftMargin(m) => {
            assert(((m % 256) as u8 + 256 * ((m / 256) as u8)) as u16 == m);
        },
        _ => {},
    }
}

} // verus!
