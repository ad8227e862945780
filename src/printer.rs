use crate::command::{
    CharMagnification, Charset, CodeTable, Command, Font, Justification, UnderlineThickness,
};
use crate::config::{PrinterConfig, MAX_FONT_WIDTH, MAX_PAPER_WIDTH};
use crate::error::Error;
use crate::instruction::{bitmap_bytes, EscposImage, MAX_RASTER};
use crate::split_words::{lemma_wrap_offset_bound, split_words, wrap};
use codepage_437::IntoCp437;
use vstd::prelude::*;

verus! {

/// What code page 437 makes of a text under the dialect that keeps control
/// characters: its bytes, or nothing where a character has no code point.
pub uninterp spec fn cp437_of(s: Seq<char>) -> Option<Seq<u8>>;

/// Relies on codepage_437's `IntoCp437::into_cp437` for `String` with
/// `CP437_CONTROL`: the result depends on the characters alone and holds one
/// byte per character.
#[verifier::external_body]
fn encode_cp437(text: &str) -> (r: Option<Vec<u8>>)
    ensures
        match r {
            Some(b) => cp437_of(text@) == Some(b@) && b@.len() == text@.len(),
            None => cp437_of(text@) is None,
        },
{
    text.to_string().into_cp437(&codepage_437::CP437_CONTROL).ok()
}

/// Relies on `String::push`: appends one character.
#[verifier::external_body]
pub(crate) fn push_char(s: &mut String, c: char)
    ensures
        final(s)@ == old(s)@.push(c),
{
    s.push(c)
}

/// Longest text, in characters, that one call may print.
pub const MAX_TEXT_LEN: usize = 0x8_0000;

/// A sink that takes the printer's bytes.
pub trait PrinterDevice {
    /// Everything written so far.
    spec fn written(&self) -> Seq<u8>;

    /// Writes all of `buf`, or fails.
    fn write_all(&mut self, buf: &[u8]) -> (r: Result<(), Error>)
        ensures
            r is Ok ==> final(self).written() == old(self).written() + buf@,
            r is Err ==> r->Err_0 == Error::Io,
    ;
}

impl PrinterDevice for Vec<u8> {
    open spec fn written(&self) -> Seq<u8> {
        self@
    }

    fn write_all(&mut self, buf: &[u8]) -> (r: Result<(), Error>) {
        self.extend_from_slice(buf);
        Ok(())
    }
}

/// Formatting state of a printer.
#[derive(Clone, Copy, Debug)]
pub struct PrinterState {
    pub char_spacing: u8,
    pub line_spacing: Option<u8>,
    pub font: Font,
    /// Dots from the start of the current line to the next glyph.
    pub left_offset: usize,
    pub split_words: bool,
    pub left_margin: u16,
    pub justification: Justification,
    pub char_magnification: CharMagnification,
}

impl PrinterState {
    /// The state after the printer has carried out `cmd`.
    pub open spec fn after(self, cmd: Command) -> PrinterState {
        match cmd {
            Command::LineSpacing(u) => PrinterState { line_spacing: Some(u), ..self },
            Command::DefaultLineSpacing => PrinterState { line_spacing: None, ..self },
            Command::CharSpacing(u) => PrinterState { char_spacing: u, ..self },
            Command::CharSize(m) => PrinterState { char_magnification: m, ..self },
            Command::Font(f) => PrinterState { font: f, ..self },
            Command::SplitWords(b) => PrinterState { split_words: b, ..self },
            Command::LeftMargin(m) => PrinterState { left_margin: m, ..self },
            Command::Justification(j) => PrinterState { justification: j, ..self },
            Command::FeedPaper(_) => PrinterState { left_offset: 0, ..self },
            Command::FeedLines(_) => PrinterState { left_offset: 0, ..self },
            Command::Init => PrinterState {
                char_magnification: CharMagnification::spec_one(),
                font: Font::FontA,
                ..self
            },
            _ => self,
        }
    }

    /// The state after a run of commands.
    pub open spec fn after_all(self, cmds: Seq<Command>) -> PrinterState
        decreases cmds.len(),
    {
        if cmds.len() == 0 {
            self
        } else {
            self.after_all(cmds.drop_last()).after(cmds.last())
        }
    }
}

/// The bytes of a run of commands.
pub open spec fn commands_bytes(cmds: Seq<Command>) -> Seq<u8>
    decreases cmds.len(),
{
    if cmds.len() == 0 {
        seq![]
    } else {
        commands_bytes(cmds.drop_last()) + cmds.last().spec_bytes()
    }
}

/// The commands of `reset`, for a configured character spacing `cs`.
pub open spec fn reset_commands(cs: u8) -> Seq<Command> {
    seq![
        Command::Init,
        Command::PrintModeDefault,
        Command::WhiteBlackReverse(false),
        Command::DoubleStrike(false),
        Command::CharSpacing(cs),
        Command::DefaultLineSpacing,
        Command::LeftMargin(0),
        Command::Justification(Justification::Left),
    ]
}

/// Parameters of the feed commands for `n` units: 255 each, the last one the rest.
pub open spec fn feed_params(n: nat) -> Seq<u8>
    decreases n,
{
    if n <= 255 {
        seq![n as u8]
    } else {
        seq![255u8] + feed_params((n - 255) as nat)
    }
}

/// The feed-lines commands for `n` lines.
pub open spec fn feed_lines_commands(n: nat) -> Seq<Command> {
    feed_params(n).map_values(|p: u8| Command::FeedLines(p))
}

/// The feed-paper commands for `n` units.
pub open spec fn feed_paper_commands(n: nat) -> Seq<Command> {
    feed_params(n).map_values(|p: u8| Command::FeedPaper(p))
}

/// A printer: its byte sink, its configuration and its formatting state.
pub struct Printer<D> {
    device: D,
    config: PrinterConfig,
    state: PrinterState,
}

impl<D> Printer<D> {
    pub closed spec fn spec_device(&self) -> D {
        self.device
    }

    pub closed spec fn spec_config(&self) -> PrinterConfig {
        self.config
    }

    pub closed spec fn spec_state(&self) -> PrinterState {
        self.state
    }

    /// The configuration keeps widths within machine integers, the configured
    /// spacing fits a byte, and the offset stays within the paper.
    pub open spec fn wf(&self) -> bool {
        &&& self.spec_config().in_bounds()
        &&& self.spec_config().char_spacing <= 255
        &&& self.spec_state().left_offset <= self.spec_config().width
        &&& self.spec_state().char_magnification.valid()
    }

    /// Paper width minus the left margin, never below zero.
    pub open spec fn spec_printable_width(&self) -> int {
        let w = self.spec_config().width as int;
        let m = self.spec_state().left_margin as int;
        if m < w {
            w - m
        } else {
            0
        }
    }

    /// Dots taken by one character: glyph plus spacing, times the magnification.
    pub open spec fn spec_char_size(&self) -> int {
        (self.spec_config().font_widths.spec_get(self.spec_state().font) as int
            + self.spec_state().char_spacing as int) * self.spec_state().char_magnification.spec_width() as int
    }

    /// A default configuration to adjust before building a printer.
    pub fn builder() -> (r: PrinterConfig)
        ensures
            r.in_bounds(),
    {
        PrinterConfig::new()
    }

    fn reduce_spacing_param(spacing: usize) -> (r: Result<u8, Error>)
        ensures
            spacing <= 255 ==> r == Ok::<u8, Error>(spacing as u8),
            spacing > 255 ==> r == Err::<u8, Error>(Error::InvalidSpacingParam),
    {
        if spacing > 255 {
            Err(Error::InvalidSpacingParam)
        } else {
            Ok(spacing as u8)
        }
    }

    /// A printer on `device`, in the initial state: configured spacing, device
    /// line spacing, first font, word wrapping on, no margin, left justified.
    pub fn new(device: D, config: PrinterConfig) -> (r: Result<Printer<D>, Error>)
        requires
            config.in_bounds(),
        ensures
            config.char_spacing > 255 <==> r is Err,
            r is Err ==> r->Err_0 == Error::InvalidSpacingParam,
            r is Ok ==> {
                let p = r->Ok_0;
                &&& p.wf()
                &&& p.spec_device() == device
                &&& p.spec_config() == config
                &&& p.spec_state() == (PrinterState {
                    char_spacing: config.char_spacing as u8,
                    line_spacing: None,
                    font: Font::FontA,
                    left_offset: 0,
                    split_words: true,
                    left_margin: 0,
                    justification: Justification::Left,
                    char_magnification: CharMagnification::spec_one(),
                })
            },
    {
        let char_spacing = Self::reduce_spacing_param(config.char_spacing)?;
        let state = PrinterState {
            char_spacing,
            line_spacing: None,
            font: Font::default_font(),
            left_offset: 0,
            split_words: true,
            left_margin: 0,
            justification: Justification::Left,
            char_magnification: CharMagnification::one(),
        };
        Ok(Printer { device, config, state })
    }

    pub fn device(&self) -> (r: &D)
        ensures
            *r == self.spec_device(),
    {
        &self.device
    }

    pub fn state(&self) -> (r: PrinterState)
        ensures
            r == self.spec_state(),
    {
        self.state
    }

    pub fn config(&self) -> (r: PrinterConfig)
        ensures
            r == self.spec_config(),
    {
        self.config
    }

    /// Gives the sink back.
    pub fn into_device(self) -> (r: D)
        ensures
            r == self.spec_device(),
    {
        self.device
    }

    pub fn calc_char_size(&self) -> (r: usize)
        requires
            self.wf(),
        ensures
            r == self.spec_char_size(),
            r <= 8 * (MAX_FONT_WIDTH + 255),
    {
        let fw = self.config.font_widths.get(&self.state.font);
        let mw = self.state.char_magnification.width();
        assert(fw <= MAX_FONT_WIDTH);
        proof {
            vstd::arithmetic::mul::lemma_mul_inequality(
                fw + self.state.char_spacing,
                MAX_FONT_WIDTH + 255,
                mw as int,
            );
            vstd::arithmetic::mul::lemma_mul_inequality(mw as int, 8, (MAX_FONT_WIDTH + 255) as int);
            vstd::arithmetic::mul::lemma_mul_is_commutative(mw as int, (MAX_FONT_WIDTH + 255) as int);
        }
        (fw + self.state.char_spacing as usize) * mw as usize
    }

    pub fn printable_width(&self) -> (r: usize)
        ensures
            r == self.spec_printable_width(),
    {
        let m = self.state.left_margin as usize;
        if m < self.config.width {
            self.config.width - m
        } else {
            0
        }
    }
}

impl PrinterConfig {
    /// A printer with this configuration on `device`.
    pub fn build<D>(&self, device: D) -> (r: Result<Printer<D>, Error>)
        requires
            self.in_bounds(),
        ensures
            self.char_spacing > 255 <==> r is Err,
            r is Err ==> r->Err_0 == Error::InvalidSpacingParam,
            r is Ok ==> r->Ok_0.wf() && r->Ok_0.spec_config() == *self && r->Ok_0.spec_device()
                == device,
    {
        Printer::new(device, *self)
    }
}

impl<D: PrinterDevice> Printer<D> {
    pub open spec fn spec_written(&self) -> Seq<u8> {
        self.spec_device().written()
    }

    /// Sends raw bytes, leaving the state alone.
    pub fn raw(&mut self, data: &[u8]) -> (r: Result<(), Error>)
        ensures
            final(self).spec_config() == old(self).spec_config(),
            final(self).spec_state() == old(self).spec_state(),
            r is Ok ==> final(self).spec_written() == old(self).spec_written() + data@,
            r is Err ==> r->Err_0 == Error::Io,
    {
        self.device.write_all(data)
    }

    /// Sends a command and takes its effect into the state.
    pub fn command(&mut self, cmd: &Command) -> (r: Result<(), Error>)
        requires
            old(self).wf(),
        ensures
            final(self).wf(),
            final(self).spec_config() == old(self).spec_config(),
            r is Ok ==> final(self).spec_written() == old(self).spec_written() + cmd.spec_bytes(),
            r is Ok ==> final(self).spec_state() == old(self).spec_state().after(*cmd),
            r is Err ==> r->Err_0 == Error::Io && final(self).spec_state() == old(self).spec_state(),
    {
        let bytes = cmd.as_bytes();
        self.raw(bytes.as_slice())?;
        match cmd {
            Command::LineSpacing(units) => self.state.line_spacing = Some(*units),
            Command::DefaultLineSpacing => self.state.line_spacing = None,
            Command::CharSpacing(units) => self.state.char_spacing = *units,
            Command::CharSize(magnification) => {
                magnification.check_valid();
                self.state.char_magnification = *magnification;
            },
            Command::Font(font) => self.state.font = *font,
            Command::SplitWords(split) => self.state.split_words = *split,
            Command::LeftMargin(margin) => self.state.left_margin = *margin,
            Command::Justification(justification) => self.state.justification = *justification,
            Command::FeedPaper(_) => self.state.left_offset = 0,
            Command::FeedLines(_) => self.state.left_offset = 0,
            Command::Init => {
                self.state.char_magnification = CharMagnification::one();
                self.state.font = Font::default_font();
            },
            _ => {},
        }
        Ok(())
    }

    /// Sends a run of commands in order, stopping at the first failure.
    pub fn commands(&mut self, cmds: &Vec<Command>) -> (r: Result<(), Error>)
        requires
            old(self).wf(),
        ensures
            final(self).wf(),
            final(self).spec_config() == old(self).spec_config(),
            r is Ok ==> final(self).spec_written() == old(self).spec_written() + commands_bytes(
                cmds@,
            ),
            r is Ok ==> final(self).spec_state() == old(self).spec_state().after_all(cmds@),
            r is Err ==> r->Err_0 == Error::Io,
    {
        let ghost w0 = self.spec_written();
        let ghost s0 = self.spec_state();
        let mut i: usize = 0;
        while i < cmds.len()
            invariant
                self.wf(),
                self.spec_config() == old(self).spec_config(),
                i <= cmds@.len(),
                w0 == old(self).spec_written(),
                s0 == old(self).spec_state(),
                self.spec_written() == w0 + commands_bytes(cmds@.take(i as int)),
                self.spec_state() == s0.after_all(cmds@.take(i as int)),
            decreases cmds@.len() - i,
        {
            let ghost before = self.spec_written();
            self.command(&cmds[i])?;
            proof {
                let t = cmds@.take(i + 1);
                assert(t.drop_last() == cmds@.take(i as int));
                assert(t.last() == cmds@[i as int]);
                assert(self.spec_written() == w0 + commands_bytes(t));
            }
            i += 1;
        }
        proof {
            assert(cmds@.take(cmds@.len() as int) == cmds@);
        }
        Ok(())
    }

    pub fn cut(&mut self) -> (r: Result<(), Error>)
        requires
            old(self).wf(),
        ensures
            final(self).wf(),
            final(self).spec_config() == old(self).spec_config(),
            r is Ok ==> final(self).spec_written() == old(self).spec_written() + Command::Cut.spec_bytes(),
            r is Ok ==> final(self).spec_state() == old(self).spec_state(),
            r is Err ==> r->Err_0 == Error::Io,
    {
        self.command(&Command::Cut)
    }

    pub fn init(&mut self) -> (r: Result<(), Error>)
        requires
            old(self).wf(),
        ensures
            final(self).wf(),
            final(self).spec_config() == old(self).spec_config(),
            r is Ok ==> final(self).spec_written() == old(self).spec_written() + Command::Init.spec_bytes(),
            r is Ok ==> final(self).spec_state() == old(self).spec_state().after(Command::Init),
            r is Err ==> r->Err_0 == Error::Io,
    {
        self.command(&Command::Init)
    }

    pub fn print_mode_default(&mut self) -> (r: Result<(), Error>)
        requires
            old(self).wf(),
        ensures
            final(self).wf(),
            final(self).spec_config() == old(self).spec_config(),
            r is Ok ==> final(self).spec_written() == old(self).spec_written()
                + Command::PrintModeDefault.spec_bytes(),
            r is Ok ==> final(self).spec_state() == old(self).spec_state(),
            r is Err ==> r->Err_0 == Error::Io,
    {
        self.command(&Command::PrintModeDefault)
    }

    pub fn charset(&mut self, charset: Charset) -> (r: Result<(), Error>)
        requires
            old(self).wf(),
        ensures
            final(self).wf(),
            final(self).spec_config() == old(self).spec_config(),
            r is Ok ==> final(self).spec_written() == old(self).spec_written() + Command::Charset(
                charset,
            ).spec_bytes(),
            r is Ok ==> final(self).spec_state() == old(self).spec_state(),
            r is Err ==> r->Err_0 == Error::Io,
    {
        self.command(&Command::Charset(charset))
    }

    pub fn code_table(&mut self, code_table: CodeTable) -> (r: Result<(), Error>)
        requires
            old(self).wf(),
        ensures
            final(self).wf(),
            final(self).spec_config() == old(self).spec_config(),
            r is Ok ==> final(self).spec_written() == old(self).spec_written() + Command::CodeTable(
                code_table,
            ).spec_bytes(),
            r is Ok ==> final(self).spec_state() == old(self).spec_state(),
            r is Err ==> r->Err_0 == Error::Io,
    {
        self.command(&Command::CodeTable(code_table))
    }

    pub fn font(&mut self, font: Font) -> (r: Result<(), Error>)
        requires
            old(self).wf(),
        ensures
            final(self).wf(),
            final(self).spec_config() == old(self).spec_config(),
            r is Ok ==> final(self).spec_written() == old(self).spec_written() + Command::Font(
                font,
            ).spec_bytes(),
            r is Ok ==> final(self).spec_state() == (PrinterState { font, ..old(self).spec_state() }),
            r is Err ==> r->Err_0 == Error::Io,
    {
        self.command(&Command::Font(font))
    }

    pub fn underline(&mut self, thickness: UnderlineThickness) -> (r: Result<(), Error>)
        requires
            old(self).wf(),
        ensures
            final(self).wf(),
            final(self).spec_config() == old(self).spec_config(),
            r is Ok ==> final(self).spec_written() == old(self).spec_written() + Command::Underline(
                thickness,
            ).spec_bytes(),
            r is Ok ==> final(self).spec_state() == old(self).spec_state(),
            r is Err ==> r->Err_0 == Error::Io,
    {
        self.command(&Command::Underline(thickness))
    }

    pub fn bold(&mut self, enabled: bool) -> (r: Result<(), Error>)
        requires
            old(self).wf(),
        ensures
            final(self).wf(),
            final(self).spec_config() == old(self).spec_config(),
            r is Ok ==> final(self).spec_written() == old(self).spec_written() + Command::Bold(
                enabled,
            ).spec_bytes(),
            r is Ok ==> final(self).spec_state() == old(self).spec_state(),
            r is Err ==> r->Err_0 == Error::Io,
    {
        self.command(&Command::Bold(enabled))
    }

    pub fn double_strike(&mut self, enabled: bool) -> (r: Result<(), Error>)
        requires
            old(self).wf(),
        ensures
            final(self).wf(),
            final(self).spec_config() == old(self).spec_config(),
            r is Ok ==> final(self).spec_written() == old(self).spec_written() + Command::DoubleStrike(
                enabled,
            ).spec_bytes(),
            r is Ok ==> final(self).spec_state() == old(self).spec_state(),
            r is Err ==> r->Err_0 == Error::Io,
    {
        self.command(&Command::DoubleStrike(enabled))
    }

    pub fn white_black_reverse(&mut self, enabled: bool) -> (r: Result<(), Error>)
        requires
            old(self).wf(),
        ensures
            final(self).wf(),
            final(self).spec_config() == old(self).spec_config(),
            r is Ok ==> final(self).spec_written() == old(self).spec_written()
                + Command::WhiteBlackReverse(enabled).spec_bytes(),
            r is Ok ==> final(self).spec_state() == old(self).spec_state(),
            r is Err ==> r->Err_0 == Error::Io,
    {
        self.command(&Command::WhiteBlackReverse(enabled))
    }

    pub fn char_size(&mut self, magnification: CharMagnification) -> (r: Result<(), Error>)
        requires
            old(self).wf(),
        ensures
            final(self).wf(),
            final(self).spec_config() == old(self).spec_config(),
            r is Ok ==> final(self).spec_written() == old(self).spec_written() + Command::CharSize(
                magnification,
            ).spec_bytes(),
            r is Ok ==> final(self).spec_state() == (PrinterState {
                char_magnification: magnification,
                ..old(self).spec_state()
            }),
            r is Err ==> r->Err_0 == Error::Io,
    {
        self.command(&Command::CharSize(magnification))
    }

    pub fn split_words(&mut self, enabled: bool) -> (r: Result<(), Error>)
        requires
            old(self).wf(),
        ensures
            final(self).wf(),
            final(self).spec_config() == old(self).spec_config(),
            r is Ok ==> final(self).spec_written() == old(self).spec_written(),
            r is Ok ==> final(self).spec_state() == (PrinterState {
                split_words: enabled,
                ..old(self).spec_state()
            }),
            r is Err ==> r->Err_0 == Error::Io,
    {
        let r = self.command(&Command::SplitWords(enabled));
        proof {
            assert(Command::SplitWords(enabled).spec_bytes() == Seq::<u8>::empty());
            assert(old(self).spec_written() + Seq::<u8>::empty() == old(self).spec_written());
        }
        r
    }

    pub fn left_margin(&mut self, margin: u16) -> (r: Result<(), Error>)
        requires
            old(self).wf(),
        ensures
            final(self).wf(),
            final(self).spec_config() == old(self).spec_config(),
            r is Ok ==> final(self).spec_written() == old(self).spec_written() + Command::LeftMargin(
                margin,
            ).spec_bytes(),
            r is Ok ==> final(self).spec_state() == (PrinterState {
                left_margin: margin,
                ..old(self).spec_state()
            }),
            r is Err ==> r->Err_0 == Error::Io,
    {
        self.command(&Command::LeftMargin(margin))
    }

    pub fn justification(&mut self, justification: Justification) -> (r: Result<(), Error>)
        requires
            old(self).wf(),
        ensures
            final(self).wf(),
            final(self).spec_config() == old(self).spec_config(),
            r is Ok ==> final(self).spec_written() == old(self).spec_written()
                + Command::Justification(justification).spec_bytes(),
            r is Ok ==> final(self).spec_state() == (PrinterState {
                justification,
                ..old(self).spec_state()
            }),
            r is Err ==> r->Err_0 == Error::Io,
    {
        self.command(&Command::Justification(justification))
    }

    /// Initialises the printer and sets the configured defaults; word wrapping is turned on.
    pub fn reset(&mut self) -> (r: Result<(), Error>)
        requires
            old(self).wf(),
        ensures
            final(self).wf(),
            final(self).spec_config() == old(self).spec_config(),
            r is Ok ==> final(self).spec_written() == old(self).spec_written() + commands_bytes(
                reset_commands(old(self).spec_config().char_spacing as u8),
            ),
            r is Ok ==> final(self).spec_state() == (PrinterState {
                split_words: true,
                ..old(self).spec_state()
            }).after_all(reset_commands(old(self).spec_config().char_spacing as u8)),
            r is Err ==> r->Err_0 == Error::Io,
    {
        self.state.split_words = true;
        let cs = self.config.char_spacing as u8;
        let cmds = vec![
            Command::Init,
            Command::PrintModeDefault,
            Command::WhiteBlackReverse(false),
            Command::DoubleStrike(false),
            Command::CharSpacing(cs),
            Command::DefaultLineSpacing,
            Command::LeftMargin(0),
            Command::Justification(Justification::Left),
        ];
        assert(cmds@ == reset_commands(cs));
        self.commands(&cmds)
    }

    /// Prints bytes already in code page 437: wraps them when word wrapping is
    /// on, sends them, and moves the offset past them. With no printable
    /// width left the bytes go out as they are and the offset returns to zero.
    pub fn print_cp437(&mut self, content: Vec<u8>) -> (r: Result<(), Error>)
        requires
            old(self).wf(),
            content@.len() <= MAX_TEXT_LEN,
        ensures
            final(self).wf(),
            final(self).spec_config() == old(self).spec_config(),
            r is Ok ==> final(self).spec_written() == old(self).spec_written() + printed_bytes(
                *old(self),
                content@,
            ),
            r is Ok ==> final(self).spec_state() == (PrinterState {
                left_offset: printed_offset(*old(self), content@) as usize,
                ..old(self).spec_state()
            }),
            r is Ok && old(self).spec_printable_width() > 0 ==> final(self).spec_state().left_offset
                < old(self).spec_printable_width(),
            r is Err ==> r->Err_0 == Error::Io,
    {
        proof {
            lemma_printed_offset_below(*old(self), content@);
        }
        let mut content = content;
        let pw = self.printable_width();
        if pw == 0 {
            self.raw(content.as_slice())?;
            self.state.left_offset = 0;
            return Ok(());
        }
        let cs = self.calc_char_size();
        proof {
            vstd::arithmetic::mul::lemma_mul_inequality(
                content@.len() as int,
                MAX_TEXT_LEN as int,
                cs as int,
            );
            vstd::arithmetic::mul::lemma_mul_inequality(
                cs as int,
                8 * (MAX_FONT_WIDTH + 255),
                MAX_TEXT_LEN as int,
            );
            vstd::arithmetic::mul::lemma_mul_is_commutative(cs as int, MAX_TEXT_LEN as int);
            assert(MAX_TEXT_LEN * (8 * (MAX_FONT_WIDTH + 255)) < 0xF000_0000);
        }
        let new_offset = if self.state.split_words {
            split_words(&mut content, self.state.left_offset, pw, cs)
        } else {
            (self.state.left_offset + content.len() * cs) % pw
        };
        self.raw(content.as_slice())?;
        self.state.left_offset = new_offset;
        Ok(())
    }

    /// Prints text: encodes it in code page 437, failing on a character
    /// outside it, and prints the bytes as `print_cp437` does.
    pub fn print(&mut self, text: &str) -> (r: Result<(), Error>)
        requires
            old(self).wf(),
            text@.len() <= MAX_TEXT_LEN,
        ensures
            final(self).wf(),
            final(self).spec_config() == old(self).spec_config(),
            cp437_of(text@) is None ==> r == Err::<(), Error>(Error::Cp437) && *final(self) == *old(self),
            cp437_of(text@) is Some && r is Ok ==> final(self).spec_written()
                == old(self).spec_written() + printed_bytes(*old(self), cp437_of(text@)->Some_0),
            cp437_of(text@) is Some && r is Ok ==> final(self).spec_state() == (PrinterState {
                left_offset: printed_offset(*old(self), cp437_of(text@)->Some_0) as usize,
                ..old(self).spec_state()
            }),
            cp437_of(text@) is Some && r is Err ==> r->Err_0 == Error::Io,
            r is Ok && old(self).spec_printable_width() > 0 ==> final(self).spec_state().left_offset
                < old(self).spec_printable_width(),
    {
        match encode_cp437(text) {
            None => Err(Error::Cp437),
            Some(content) => self.print_cp437(content),
        }
    }

    /// Prints text followed by a line feed.
    pub fn println(&mut self, text: &str) -> (r: Result<(), Error>)
        requires
            old(self).wf(),
            text@.len() < MAX_TEXT_LEN,
        ensures
            final(self).wf(),
            final(self).spec_config() == old(self).spec_config(),
            cp437_of(text@.push('\n')) is None ==> r == Err::<(), Error>(Error::Cp437)
                && *final(self) == *old(self),
            cp437_of(text@.push('\n')) is Some && r is Ok ==> final(self).spec_written()
                == old(self).spec_written() + printed_bytes(
                *old(self),
                cp437_of(text@.push('\n'))->Some_0,
            ),
            cp437_of(text@.push('\n')) is Some && r is Ok ==> final(self).spec_state()
                == (PrinterState {
                left_offset: printed_offset(*old(self), cp437_of(text@.push('\n'))->Some_0) as usize,
                ..old(self).spec_state()
            }),
            cp437_of(text@.push('\n')) is Some && r is Err ==> r->Err_0 == Error::Io,
            r is Ok && old(self).spec_printable_width() > 0 ==> final(self).spec_state().left_offset
                < old(self).spec_printable_width(),
    {
        let mut line = text.to_owned();
        push_char(&mut line, '\n');
        self.print(line.as_str())
    }

    /// Feeds `lines` lines: one command of 255 lines while more than 255 are
    /// left, then one with the rest.
    pub fn feed_lines(&mut self, lines: usize) -> (r: Result<(), Error>)
        requires
            old(self).wf(),
        ensures
            final(self).wf(),
            final(self).spec_config() == old(self).spec_config(),
            r is Ok ==> final(self).spec_written() == old(self).spec_written() + commands_bytes(
                feed_lines_commands(lines as nat),
            ),
            r is Ok ==> final(self).spec_state() == (PrinterState {
                left_offset: 0,
                ..old(self).spec_state()
            }),
            r is Err ==> r->Err_0 == Error::Io,
    {
        let ghost w0 = self.spec_written();
        let ghost s0 = self.spec_state();
        let mut left: usize = lines;
        proof {
            lemma_feed_lines_bytes(lines as nat);
        }
        while left > 255
            invariant
                self.wf(),
                self.spec_config() == old(self).spec_config(),
                w0 == old(self).spec_written(),
                s0 == old(self).spec_state(),
                self.spec_written() + feed_bytes(0x64, left as nat) == w0 + feed_bytes(
                    0x64,
                    lines as nat,
                ),
                left == lines || self.spec_state() == (PrinterState { left_offset: 0, ..s0 }),
                left <= lines,
                left == lines ==> self.spec_state() == s0,
            decreases left,
        {
            let ghost before = self.spec_written();
            self.command(&Command::FeedLines(255))?;
            proof {
                assert(feed_bytes(0x64, left as nat) == seq![0x1bu8, 0x64, 255u8] + feed_bytes(
                    0x64,
                    (left - 255) as nat,
                ));
                assert(self.spec_written() + feed_bytes(0x64, (left - 255) as nat) == before
                    + feed_bytes(0x64, left as nat));
            }
            left = left - 255;
        }
        let ghost before = self.spec_written();
        self.command(&Command::FeedLines(left as u8))?;
        proof {
            assert(feed_bytes(0x64, left as nat) == seq![0x1bu8, 0x64, left as u8]);
            lemma_feed_lines_bytes(lines as nat);
        }
        Ok(())
    }

    /// Feeds `units` dots of paper, 255 at a time, then the rest.
    pub fn feed_paper(&mut self, units: usize) -> (r: Result<(), Error>)
        requires
            old(self).wf(),
        ensures
            final(self).wf(),
            final(self).spec_config() == old(self).spec_config(),
            r is Ok ==> final(self).spec_written() == old(self).spec_written() + commands_bytes(
                feed_paper_commands(units as nat),
            ),
            r is Ok ==> final(self).spec_state() == (PrinterState {
                left_offset: 0,
                ..old(self).spec_state()
            }),
            r is Err ==> r->Err_0 == Error::Io,
    {
        let ghost w0 = self.spec_written();
        let ghost s0 = self.spec_state();
        let mut left: usize = units;
        while left > 255
            invariant
                self.wf(),
                self.spec_config() == old(self).spec_config(),
                w0 == old(self).spec_written(),
                s0 == old(self).spec_state(),
                self.spec_written() + feed_bytes(0x4a, left as nat) == w0 + feed_bytes(
                    0x4a,
                    units as nat,
                ),
                left == units || self.spec_state() == (PrinterState { left_offset: 0, ..s0 }),
                left <= units,
                left == units ==> self.spec_state() == s0,
            decreases left,
        {
            let ghost before = self.spec_written();
            self.command(&Command::FeedPaper(255))?;
            proof {
                assert(feed_bytes(0x4a, left as nat) == seq![0x1bu8, 0x4a, 255u8] + feed_bytes(
                    0x4a,
                    (left - 255) as nat,
                ));
                assert(self.spec_written() + feed_bytes(0x4a, (left - 255) as nat) == before
                    + feed_bytes(0x4a, left as nat));
            }
            left = left - 255;
        }
        self.command(&Command::FeedPaper(left as u8))?;
        proof {
            assert(feed_bytes(0x4a, left as nat) == seq![0x1bu8, 0x4a, left as u8]);
            lemma_feed_paper_bytes(units as nat);
        }
        Ok(())
    }

    /// Prints an image across the printable width, placed by the current
    /// justification, and restores the current line spacing after it.
    pub fn image(&mut self, image: &EscposImage) -> (r: Result<(), Error>)
        requires
            old(self).wf(),
            image.wf(),
            image.fits_within(0xFFFF),
        ensures
            final(self).wf(),
            final(self).spec_config() == old(self).spec_config(),
            r is Ok ==> final(self).spec_written() == old(self).spec_written() + bitmap_bytes(
                image.spec_pixels(
                    old(self).spec_printable_width() as u32,
                    old(self).spec_state().justification,
                ),
                old(self).spec_printable_width(),
                image.spec_final_height(old(self).spec_printable_width()),
                old(self).spec_state().line_spacing,
            ),
            r is Ok ==> final(self).spec_state() == (PrinterState {
                left_offset: 0,
                ..old(self).spec_state()
            }),
            r is Err ==> r->Err_0 == Error::Io,
    {
        let pw = self.printable_width();
        assert(pw <= MAX_PAPER_WIDTH);
        assert(pw * image.spec_final_height(pw as int) <= MAX_RASTER);
        let bytes = image.as_bytes(pw, self.state.justification, self.state.line_spacing);
        self.raw(bytes.as_slice())?;
        self.state.left_offset = 0;
        Ok(())
    }

    /// Sets the character spacing; a value above 255 is refused.
    pub fn char_spacing(&mut self, char_spacing: usize) -> (r: Result<(), Error>)
        requires
            old(self).wf(),
        ensures
            final(self).wf(),
            final(self).spec_config() == old(self).spec_config(),
            char_spacing > 255 ==> r == Err::<(), Error>(Error::InvalidSpacingParam) && *final(self)
                == *old(self),
            char_spacing <= 255 && r is Ok ==> final(self).spec_written() == old(self).spec_written()
                + Command::CharSpacing(char_spacing as u8).spec_bytes(),
            char_spacing <= 255 && r is Ok ==> final(self).spec_state() == (PrinterState {
                char_spacing: char_spacing as u8,
                ..old(self).spec_state()
            }),
            char_spacing <= 255 && r is Err ==> r->Err_0 == Error::Io,
    {
        let units = Self::reduce_spacing_param(char_spacing)?;
        self.command(&Command::CharSpacing(units))
    }

    /// Sets the line spacing, or the device default for `None`; a value above 255 is refused.
    pub fn line_spacing(&mut self, line_spacing: Option<usize>) -> (r: Result<(), Error>)
        requires
            old(self).wf(),
        ensures
            final(self).wf(),
            final(self).spec_config() == old(self).spec_config(),
            line_spacing is Some && line_spacing->Some_0 > 255 ==> r == Err::<(), Error>(
                Error::InvalidSpacingParam,
            ) && *final(self) == *old(self),
            line_spacing is None && r is Ok ==> final(self).spec_written() == old(self).spec_written()
                + Command::DefaultLineSpacing.spec_bytes() && final(self).spec_state()
                == (PrinterState { line_spacing: None, ..old(self).spec_state() }),
            line_spacing is Some && line_spacing->Some_0 <= 255 && r is Ok ==> final(self).spec_written() == old(self).spec_written() + Command::LineSpacing(
                line_spacing->Some_0 as u8,
            ).spec_bytes() && final(self).spec_state() == (PrinterState {
                line_spacing: Some(line_spacing->Some_0 as u8),
                ..old(self).spec_state()
            }),
            (line_spacing is None || line_spacing->Some_0 <= 255) && r is Err ==> r->Err_0
                == Error::Io,
    {
        let cmd = match line_spacing {
            Some(units) => Command::LineSpacing(Self::reduce_spacing_param(units)?),
            None => Command::DefaultLineSpacing,
        };
        self.command(&cmd)
    }
}

/// Paper width minus the left margin, never below zero.
pub open spec fn width_of(cfg: PrinterConfig, st: PrinterState) -> int {
    if (st.left_margin as int) < cfg.width as int {
        cfg.width - st.left_margin
    } else {
        0
    }
}

/// Dots taken by one character: glyph plus spacing, times the magnification.
pub open spec fn char_size_of(cfg: PrinterConfig, st: PrinterState) -> int {
    (cfg.font_widths.spec_get(st.font) as int + st.char_spacing as int) * st.char_magnification.spec_width() as int
}

/// The bytes that printing `content` sends in this configuration and state.
pub open spec fn printed_bytes_at(cfg: PrinterConfig, st: PrinterState, content: Seq<u8>) -> Seq<u8> {
    if st.split_words && width_of(cfg, st) > 0 {
        wrap(content, st.left_offset as int, width_of(cfg, st), char_size_of(cfg, st)).0
    } else {
        content
    }
}

/// The offset after printing `content` in this configuration and state.
pub open spec fn printed_offset_at(cfg: PrinterConfig, st: PrinterState, content: Seq<u8>) -> int {
    if width_of(cfg, st) <= 0 {
        0
    } else if st.split_words {
        wrap(content, st.left_offset as int, width_of(cfg, st), char_size_of(cfg, st)).1
    } else {
        (st.left_offset + content.len() * char_size_of(cfg, st)) % width_of(cfg, st)
    }
}

/// The bytes that printing `content` sends from printer `p`.
pub open spec fn printed_bytes<D>(p: Printer<D>, content: Seq<u8>) -> Seq<u8> {
    printed_bytes_at(p.spec_config(), p.spec_state(), content)
}

/// The offset after printing `content` from printer `p`.
pub open spec fn printed_offset<D>(p: Printer<D>, content: Seq<u8>) -> int {
    printed_offset_at(p.spec_config(), p.spec_state(), content)
}

/// With some printable width, the offset after printing lies within it.
pub proof fn lemma_printed_offset_below<D>(p: Printer<D>, content: Seq<u8>)
    requires
        p.wf(),
    ensures
        p.spec_printable_width() > 0 ==> 0 <= printed_offset(p, content) < p.spec_printable_width(),
{
    if p.spec_printable_width() > 0 && p.spec_state().split_words {
        vstd::arithmetic::mul::lemma_mul_nonnegative(
            (p.spec_config().font_widths.spec_get(p.spec_state().font) as int
                + p.spec_state().char_spacing as int),
            p.spec_state().char_magnification.spec_width() as int,
        );
        lemma_wrap_offset_bound(
            content,
            p.spec_state().left_offset as int,
            p.spec_printable_width(),
            p.spec_char_size(),
        );
    }
}

/// The bytes of the feed commands with command byte `op` for `n` units.
pub open spec fn feed_bytes(op: u8, n: nat) -> Seq<u8>
    decreases n,
{
    if n <= 255 {
        seq![0x1bu8, op, n as u8]
    } else {
        seq![0x1bu8, op, 255u8] + feed_bytes(op, (n - 255) as nat)
    }
}

proof fn lemma_commands_bytes_single(c: Command)
    ensures
        commands_bytes(seq![c]) == c.spec_bytes(),
{
    assert(seq![c].drop_last() == Seq::<Command>::empty());
    assert(commands_bytes(Seq::<Command>::empty()) == Seq::<u8>::empty());
    assert(seq![c].last() == c);
    assert(commands_bytes(seq![c]) == commands_bytes(seq![c].drop_last()) + c.spec_bytes());
    assert(Seq::<u8>::empty() + c.spec_bytes() == c.spec_bytes());
}

proof fn lemma_commands_bytes_prepend(c: Command, rest: Seq<Command>)
    ensures
        commands_bytes(seq![c] + rest) == c.spec_bytes() + commands_bytes(rest),
    decreases rest.len(),
{
    if rest.len() == 0 {
        lemma_commands_bytes_single(c);
        assert(seq![c] + rest == seq![c]);
        assert(c.spec_bytes() + commands_bytes(rest) == c.spec_bytes());
    } else {
        lemma_commands_bytes_prepend(c, rest.drop_last());
        let all = seq![c] + rest;
        assert(all.drop_last() == seq![c] + rest.drop_last());
        assert(all.last() == rest.last());
        assert(commands_bytes(all) == commands_bytes(all.drop_last()) + all.last().spec_bytes());
        assert(commands_bytes(all) == c.spec_bytes() + commands_bytes(rest.drop_last())
            + rest.last().spec_bytes());
        assert(commands_bytes(rest) == commands_bytes(rest.drop_last()) + rest.last().spec_bytes());
        assert(c.spec_bytes() + commands_bytes(rest.drop_last()) + rest.last().spec_bytes()
            == c.spec_bytes() + (commands_bytes(rest.drop_last()) + rest.last().spec_bytes()));
    }
}

proof fn lemma_feed_lines_bytes(n: nat)
    ensures
        commands_bytes(feed_lines_commands(n)) == feed_bytes(0x64, n),
    decreases n,
{
    if n <= 255 {
        assert(feed_lines_commands(n) == seq![Command::FeedLines(n as u8)]);
        lemma_commands_bytes_single(Command::FeedLines(n as u8));
    } else {
        lemma_feed_lines_bytes((n - 255) as nat);
        assert(feed_lines_commands(n) == seq![Command::FeedLines(255)] + feed_lines_commands(
            (n - 255) as nat,
        ));
        lemma_commands_bytes_prepend(
            Command::FeedLines(255),
            feed_lines_commands((n - 255) as nat),
        );
    }
}

proof fn lemma_feed_paper_bytes(n: nat)
    ensures
        commands_bytes(feed_paper_commands(n)) == feed_bytes(0x4a, n),
    decreases n,
{
    if n <= 255 {
        assert(feed_paper_commands(n) == seq![Command::FeedPaper(n as u8)]);
        lemma_commands_bytes_single(Command::FeedPaper(n as u8));
    } else {
        lemma_feed_paper_bytes((n - 255) as nat);
        assert(feed_paper_commands(n) == seq![Command::FeedPaper(255)] + feed_paper_commands(
            (n - 255) as nat,
        ));
        lemma_commands_bytes_prepend(
            Command::FeedPaper(255),
            feed_paper_commands((n - 255) as nat),
        );
    }
}

/// The sum of a run of bytes, as a number.
pub open spec fn sum_bytes(s: Seq<u8>) -> int
    decreases s.len(),
{
    if s.len() == 0 {
        0
    } else {
        s[0] + sum_bytes(s.drop_first())
    }
}

/// Feeding `n > 0` lines sends `ceil(n / 255)` feed-lines commands whose
/// parameters add up to `n`.
pub proof fn lemma_feed_lines_count_and_sum(n: nat)
    requires
        n > 0,
    ensures
        feed_lines_commands(n).len() == (n + 254) / 255,
        forall|i: int| 0 <= i < feed_lines_commands(n).len() ==> #[trigger] feed_lines_commands(n)[i]
            == Command::FeedLines(feed_params(n)[i]),
        sum_bytes(feed_params(n)) == n,
    decreases n,
{
    if n > 255 {
        lemma_feed_lines_count_and_sum((n - 255) as nat);
        assert(feed_params(n).drop_first() == feed_params((n - 255) as nat));
        assert(feed_params(n)[0] == 255);
        assert(sum_bytes(feed_params(n)) == 255 + sum_bytes(feed_params((n - 255) as nat)));
    } else {
        assert(feed_params(n).drop_first() == Seq::<u8>::empty());
        assert(sum_bytes(Seq::<u8>::empty()) == 0);
        assert(feed_params(n)[0] == n as u8);
        assert(sum_bytes(feed_params(n)) == feed_params(n)[0] + sum_bytes(feed_params(n).drop_first()));
    }
}

} // verus!
