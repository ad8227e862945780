use crate::config::PrinterConfig;
use crate::error::Error;
use crate::instruction::{bitmap_bytes, EscposImage, ImageOptions};
use crate::printer::{
    char_size_of, commands_bytes, cp437_of, printed_bytes_at, printed_offset_at, push_char, width_of,
    Printer, PrinterDevice, PrinterState, MAX_TEXT_LEN,
};
use crate::style::{
    block_close_commands, block_open_bytes, block_open_fails, block_open_state, cascade, font_commands,
    spacings_fit, Display, Style, StyleSheet,
};
use crate::style_tag::StyleTag;
use vstd::prelude::*;

verus! {

/// Markdown tags as a parser reports them.
#[derive(Clone, Copy, Debug, PartialEq, Eq, Structural)]
pub enum MdTag {
    Paragraph,
    /// A heading of level 1 to 6.
    Heading(u32),
    BlockQuote,
    CodeBlock,
    /// A list; ordered ones carry their first number.
    List(Option<u64>),
    Item,
    Emphasis,
    Strong,
    Strikethrough,
    Link,
    /// An image, by its position among the images handed to the renderer.
    Image(usize),
    Table,
    TableHead,
    TableRow,
    TableCell,
    FootnoteDefinition,
}

/// Markdown events as a parser reports them.
#[derive(Clone, Debug, PartialEq, Eq)]
pub enum MdEvent {
    Start(MdTag),
    End(MdTag),
    Text(String),
    Code(String),
    Html,
    FootnoteReference,
    SoftBreak,
    HardBreak,
    Rule,
    TaskListMarker(bool),
}

/// The style tag of a Markdown tag; tables and footnotes have none.
pub open spec fn spec_style_tag(t: MdTag) -> Option<StyleTag> {
    match t {
        MdTag::Paragraph => Some(StyleTag::P),
        MdTag::Heading(1) => Some(StyleTag::H1),
        MdTag::Heading(2) => Some(StyleTag::H2),
        MdTag::Heading(3) => Some(StyleTag::H3),
        MdTag::Heading(4) => Some(StyleTag::H4),
        MdTag::Heading(5) => Some(StyleTag::H5),
        MdTag::Heading(6) => Some(StyleTag::H6),
        MdTag::BlockQuote => Some(StyleTag::Blockquote),
        MdTag::CodeBlock => Some(StyleTag::Codeblock),
        MdTag::List(None) => Some(StyleTag::Ul),
        MdTag::List(Some(_)) => Some(StyleTag::Ol),
        MdTag::Item => Some(StyleTag::Li),
        MdTag::Emphasis => Some(StyleTag::Em),
        MdTag::Strong => Some(StyleTag::Strong),
        MdTag::Strikethrough => Some(StyleTag::Strikethrough),
        MdTag::Link => Some(StyleTag::A),
        MdTag::Image(_) => Some(StyleTag::Img),
        _ => None,
    }
}

impl MdTag {
    /// The style tag that rules select this tag by.
    pub fn style_tag(&self) -> (r: Result<StyleTag, Error>)
        ensures
            match spec_style_tag(*self) {
                Some(t) => r == Ok::<StyleTag, Error>(t),
                None => r == Err::<StyleTag, Error>(Error::UnsupportedTag),
            },
    {
        match self {
            MdTag::Paragraph => Ok(StyleTag::P),
            MdTag::Heading(1) => Ok(StyleTag::H1),
            MdTag::Heading(2) => Ok(StyleTag::H2),
            MdTag::Heading(3) => Ok(StyleTag::H3),
            MdTag::Heading(4) => Ok(StyleTag::H4),
            MdTag::Heading(5) => Ok(StyleTag::H5),
            MdTag::Heading(6) => Ok(StyleTag::H6),
            MdTag::BlockQuote => Ok(StyleTag::Blockquote),
            MdTag::CodeBlock => Ok(StyleTag::Codeblock),
            MdTag::List(None) => Ok(StyleTag::Ul),
            MdTag::List(Some(_)) => Ok(StyleTag::Ol),
            MdTag::Item => Ok(StyleTag::Li),
            MdTag::Emphasis => Ok(StyleTag::Em),
            MdTag::Strong => Ok(StyleTag::Strong),
            MdTag::Strikethrough => Ok(StyleTag::Strikethrough),
            MdTag::Link => Ok(StyleTag::A),
            MdTag::Image(_) => Ok(StyleTag::Img),
            _ => Err(Error::UnsupportedTag),
        }
    }
}

/// What the renderer remembers of an open tag: the next number of an ordered list.
#[derive(Clone, Copy, Debug, PartialEq, Eq, Structural)]
pub enum TagState {
    Stateless,
    Item(u64),
}

impl TagState {
    pub fn num(&self) -> (r: Option<u64>)
        ensures
            match self {
                TagState::Stateless => r is None,
                TagState::Item(n) => r == Some(*n),
            },
    {
        match self {
            TagState::Stateless => None,
            TagState::Item(num) => Some(*num),
        }
    }
}

/// The stylesheet and the image options of a rendering.
pub struct MarkdownRenderOptions {
    pub styles: StyleSheet,
    pub image: ImageOptions,
}

impl MarkdownRenderOptions {
    /// The default stylesheet and image options.
    pub fn new() -> (r: MarkdownRenderOptions)
        ensures
            r.styles.wf(),
    {
        MarkdownRenderOptions { styles: StyleSheet::defaults(), image: ImageOptions::new() }
    }
}

/// Texts short enough to print in one piece.
pub open spec fn texts_fit(events: Seq<MdEvent>) -> bool {
    forall|i: int|
        0 <= i < events.len() ==> match #[trigger] events[i] {
            MdEvent::Text(s) => s@.len() <= MAX_TEXT_LEN,
            MdEvent::Code(s) => s@.len() <= MAX_TEXT_LEN,
            _ => true,
        }
}

/// Images that the renderer can print.
pub open spec fn images_fit(images: Seq<EscposImage>) -> bool {
    forall|k: int| 0 <= k < images.len() ==> (#[trigger] images[k]).wf() && images[k].fits_within(0xFFFF)
}

/// What one step of rendering does: the bytes it sends and the state after
/// them, or the library error that stops it.
pub type Step = Result<(Seq<u8>, PrinterState), Error>;

/// Setting the font fields of `style`.
pub open spec fn font_step(st: PrinterState, style: Style) -> Step {
    if !spacings_fit(style) {
        Err(Error::InvalidSpacingParam)
    } else {
        Ok((commands_bytes(font_commands(style)), st.after_all(font_commands(style))))
    }
}

/// Opening the block of `style`.
pub open spec fn open_step(cfg: PrinterConfig, st: PrinterState, style: Style) -> Step {
    if block_open_fails(style) {
        Err(Error::Cp437)
    } else {
        Ok((block_open_bytes(cfg, st, style), block_open_state(cfg, st, style)))
    }
}

/// Closing the block of `style`.
pub open spec fn close_step(st: PrinterState, style: Style) -> Step {
    if style.display == Display::Inline {
        Ok((Seq::<u8>::empty(), st))
    } else {
        let c = block_close_commands(style, st.left_margin);
        Ok((commands_bytes(c), st.after_all(c)))
    }
}

/// Printing `text`.
pub open spec fn print_step(cfg: PrinterConfig, st: PrinterState, text: Seq<char>) -> Step {
    match cp437_of(text) {
        None => Err(Error::Cp437),
        Some(b) => Ok(
            (
                printed_bytes_at(cfg, st, b),
                PrinterState { left_offset: printed_offset_at(cfg, st, b) as usize, ..st },
            ),
        ),
    }
}

/// Printing an image across the printable width.
pub open spec fn image_step(cfg: PrinterConfig, st: PrinterState, img: EscposImage) -> Step {
    let w = width_of(cfg, st);
    Ok(
        (
            bitmap_bytes(img.spec_pixels(w as u32, st.justification), w, img.spec_final_height(w), st.line_spacing),
            PrinterState { left_offset: 0, ..st },
        ),
    )
}

/// `a`, then `b` (which starts from the state `a` leaves).
pub open spec fn then_step(a: Step, b: Step) -> Step {
    match a {
        Err(e) => Err(e),
        Ok((x, _)) => match b {
            Err(e) => Err(e),
            Ok((y, t)) => Ok((x + y, t)),
        },
    }
}

/// The state that `a` leaves, or `st` when it fails.
pub open spec fn state_of(a: Step, st: PrinterState) -> PrinterState {
    match a {
        Ok((_, t)) => t,
        Err(_) => st,
    }
}

/// Setting the font of `style`, then opening its block.
pub open spec fn enter_step(cfg: PrinterConfig, st: PrinterState, style: Style) -> Step {
    let a = font_step(st, style);
    then_step(a, open_step(cfg, state_of(a, st), style))
}

/// A printer step went as `s` says: on success it sent `s`'s bytes and left
/// its state; on failure the sink refused a write or `s` names the error; and
/// it fails whenever `s` does.
pub open spec fn step_done(
    w0: Seq<u8>,
    s0: PrinterState,
    w1: Seq<u8>,
    s1: PrinterState,
    r: Result<(), Error>,
    s: Step,
) -> bool {
    &&& r is Ok ==> s is Ok && w1 == w0 + s->Ok_0.0 && s1 == s->Ok_0.1
    &&& r is Err ==> r->Err_0 == Error::Io || s == Err::<(Seq<u8>, PrinterState), Error>(r->Err_0)
    &&& s is Err ==> r is Err
}

proof fn lemma_then(
    w0: Seq<u8>,
    s0: PrinterState,
    w1: Seq<u8>,
    s1: PrinterState,
    w2: Seq<u8>,
    s2: PrinterState,
    r1: Result<(), Error>,
    r2: Result<(), Error>,
    a: Step,
    b: Step,
)
    requires
        step_done(w0, s0, w1, s1, r1, a),
        r1 is Ok,
        step_done(w1, s1, w2, s2, r2, b),
    ensures
        step_done(w0, s0, w2, s2, r2, then_step(a, b)),
{
    if r2 is Ok {
        assert(w2 == w0 + (a->Ok_0.0 + b->Ok_0.0));
    }
}

proof fn lemma_then_stop(w0: Seq<u8>, s0: PrinterState, w1: Seq<u8>, s1: PrinterState, r1: Result<(), Error>, a: Step, b: Step)
    requires
        step_done(w0, s0, w1, s1, r1, a),
        r1 is Err,
    ensures
        step_done(w0, s0, w1, s1, r1, then_step(a, b)),
{
}

struct RendererState {
    tree: Vec<(MdTag, TagState)>,
}

impl RendererState {
    spec fn tags(&self) -> Seq<MdTag> {
        self.tree@.map_values(|e: (MdTag, TagState)| e.0)
    }

    fn push_tag(&mut self, tag: MdTag) -> (r: Result<(), Error>)
        ensures
            tag == MdTag::Item && old(self).tags().len() == 0 ==> r == Err::<(), Error>(Error::UnexpectedTag),
            !(tag == MdTag::Item && old(self).tags().len() == 0) ==> r is Ok && final(self).tags()
                == old(self).tags().push(tag),
    {
        let state = match tag {
            MdTag::List(Some(num)) => TagState::Item(num),
            MdTag::Item => {
                let n = self.tree.len();
                if n == 0 {
                    return Err(Error::UnexpectedTag);
                }
                let (parent, parent_state) = self.tree[n - 1];
                match parent_state {
                    TagState::Stateless => TagState::Stateless,
                    TagState::Item(num) => {
                        let next = if num < u64::MAX {
                            num + 1
                        } else {
                            num
                        };
                        self.tree.set(n - 1, (parent, TagState::Item(next)));
                        proof {
                            assert(self.tags() =~= old(self).tags());
                        }
                        TagState::Item(num)
                    },
                }
            },
            _ => TagState::Stateless,
        };
        self.tree.push((tag, state));
        proof {
            assert(self.tags() =~= old(self).tags().push(tag));
        }
        Ok(())
    }

    fn pop_tag(&mut self, tag: &MdTag) -> (r: Result<(), Error>)
        ensures
            old(self).tags().len() > 0 && old(self).tags().last() == *tag ==> r is Ok && final(self).tags()
                == old(self).tags().drop_last(),
            !(old(self).tags().len() > 0 && old(self).tags().last() == *tag) ==> r == Err::<(), Error>(
                Error::UnexpectedTag,
            ),
    {
        let n = self.tree.len();
        if n == 0 || self.tree[n - 1].0 != *tag {
            return Err(Error::UnexpectedTag);
        }
        self.tree.pop();
        proof {
            assert(self.tags() =~= old(self).tags().drop_last());
        }
        Ok(())
    }

    fn style_tags(&self) -> (r: Result<Vec<StyleTag>, Error>)
        ensures
            r is Ok <==> tags_of(self.tags()) is Some,
            r is Ok ==> r->Ok_0@ == tags_of(self.tags())->Some_0,
            r is Err ==> r->Err_0 == Error::UnsupportedTag,
    {
        let mut out: Vec<StyleTag> = Vec::new();
        let mut i: usize = 0;
        assert(self.tags().take(0) =~= Seq::<MdTag>::empty());
        while i < self.tree.len()
            invariant
                i <= self.tree@.len(),
                tags_of(self.tags().take(i as int)) == Some(out@),
            decreases self.tree@.len() - i,
        {
            proof {
                assert(self.tags().take(i + 1).drop_last() == self.tags().take(i as int));
                assert(self.tags().take(i + 1).last() == self.tree@[i as int].0);
            }
            match self.tree[i].0.style_tag() {
                Ok(t) => out.push(t),
                Err(e) => {
                    proof {
                        lemma_tags_of_prefix(self.tags(), i + 1);
                    }
                    return Err(e);
                },
            }
            i += 1;
        }
        assert(self.tags().take(i as int) == self.tags());
        Ok(out)
    }
}

/// A row of `n` box-drawing horizontal lines.
pub open spec fn bar_line(n: nat) -> Seq<char> {
    Seq::new(n, |i: int| '\u{2500}')
}

fn rule_line(n: usize) -> (r: String)
    ensures
        r@ == bar_line(n as nat),
{
    let mut s = String::new();
    let mut i: usize = 0;
    while i < n
        invariant
            i <= n,
            s@ == bar_line(i as nat),
        decreases n - i,
    {
        push_char(&mut s, '\u{2500}');
        proof {
            assert(s@ =~= bar_line((i + 1) as nat));
        }
        i += 1;
    }
    s
}

/// The style tags of the open tags, or `None` when one of them has none.
pub open spec fn tags_of(stack: Seq<MdTag>) -> Option<Seq<StyleTag>>
    decreases stack.len(),
{
    if stack.len() == 0 {
        Some(seq![])
    } else {
        match (tags_of(stack.drop_last()), spec_style_tag(stack.last())) {
            (Some(t), Some(x)) => Some(t.push(x)),
            _ => None,
        }
    }
}

proof fn lemma_tags_of_prefix(stack: Seq<MdTag>, k: int)
    requires
        0 <= k <= stack.len(),
        tags_of(stack.take(k)) is None,
    ensures
        tags_of(stack) is None,
    decreases stack.len() - k,
{
    if k < stack.len() {
        assert(stack.take(k + 1).drop_last() == stack.take(k));
        lemma_tags_of_prefix(stack, k + 1);
    } else {
        assert(stack.take(k) == stack);
    }
}

/// The style that `styles` gives the node at the top of `tags`.
pub open spec fn style_for(styles: StyleSheet, tags: Seq<StyleTag>) -> Style {
    cascade(styles.spec_base(), styles.spec_rules(), tags)
}

/// A step's result with the open tags after it.
pub open spec fn with_stack(s: Step, stack: Seq<MdTag>) -> Result<(Seq<u8>, PrinterState, Seq<MdTag>), Error> {
    match s {
        Err(e) => Err(e),
        Ok((b, t)) => Ok((b, t, stack)),
    }
}

/// Number of bars in a horizontal rule: as many characters as the line holds.
pub open spec fn bar_count(cfg: PrinterConfig, st: PrinterState) -> nat {
    if char_size_of(cfg, st) == 0 {
        0
    } else {
        (width_of(cfg, st) / char_size_of(cfg, st)) as nat
    }
}

/// Printing `extra`'s style around a printed text: set the font and open the
/// block, print, close the block, and return to the font of `tags`.
pub open spec fn framed_step(cfg: PrinterConfig, st: PrinterState, styles: StyleSheet, tags: Seq<StyleTag>, extra: StyleTag, text: Option<Seq<char>>) -> Step {
    let style = style_for(styles, tags.push(extra));
    let a = enter_step(cfg, st, style);
    let sa = state_of(a, st);
    let line = match text {
        Some(t) => t,
        None => bar_line(bar_count(cfg, sa)).push('\n'),
    };
    let b = then_step(a, print_step(cfg, sa, line));
    let c = then_step(b, close_step(state_of(b, st), style));
    then_step(c, font_step(state_of(c, st), style_for(styles, tags)))
}

/// What a start tag does: it opens `tag`, sets the style of the open tags
/// and opens its block; an image is then printed and its caption block opened.
pub open spec fn start_spec(
    cfg: PrinterConfig,
    st: PrinterState,
    stack: Seq<MdTag>,
    tag: MdTag,
    styles: StyleSheet,
    images: Seq<EscposImage>,
) -> Result<(Seq<u8>, PrinterState, Seq<MdTag>), Error> {
    if tag == MdTag::Item && stack.len() == 0 {
        Err(Error::UnexpectedTag)
    } else {
        let stk = stack.push(tag);
        match tags_of(stk) {
            None => Err(Error::UnsupportedTag),
            Some(tags) => {
                let a = enter_step(cfg, st, style_for(styles, tags));
                let s = match tag {
                    MdTag::Image(k) => {
                        let b = if k < images.len() {
                            image_step(cfg, state_of(a, st), images[k as int])
                        } else {
                            Err(Error::UnsupportedTag)
                        };
                        let ab = then_step(a, b);
                        then_step(ab, enter_step(cfg, state_of(ab, st), style_for(styles, tags.push(StyleTag::ImgCaption))))
                    },
                    _ => a,
                };
                with_stack(s, stk)
            },
        }
    }
}

/// What an end tag does: it closes an image's caption block, closes the
/// block of the open tags, closes `tag` (which must be the innermost open
/// tag) and returns to the font of the enclosing tags.
pub open spec fn end_spec(
    cfg: PrinterConfig,
    st: PrinterState,
    stack: Seq<MdTag>,
    tag: MdTag,
    styles: StyleSheet,
) -> Result<(Seq<u8>, PrinterState, Seq<MdTag>), Error> {
    match tags_of(stack) {
        None => Err(Error::UnsupportedTag),
        Some(tags) => {
            let a = match tag {
                MdTag::Image(_) => close_step(st, style_for(styles, tags.push(StyleTag::ImgCaption))),
                _ => Ok((Seq::<u8>::empty(), st)),
            };
            let b = then_step(a, close_step(state_of(a, st), style_for(styles, tags)));
            if !(stack.len() > 0 && stack.last() == tag) {
                with_stack(then_step(b, Err(Error::UnexpectedTag)), stack)
            } else {
                match tags_of(stack.drop_last()) {
                    None => with_stack(then_step(b, Err(Error::UnsupportedTag)), stack),
                    Some(outer) => with_stack(
                        then_step(b, font_step(state_of(b, st), style_for(styles, outer))),
                        stack.drop_last(),
                    ),
                }
            }
        },
    }
}

/// What rendering one event does from state `st` with `stack` open: the
/// bytes sent, the state and the open tags after it, or the library error
/// that stops the rendering.
#[verifier::opaque]
pub open spec fn render_event(
    cfg: PrinterConfig,
    st: PrinterState,
    stack: Seq<MdTag>,
    ev: MdEvent,
    styles: StyleSheet,
    images: Seq<EscposImage>,
) -> Result<(Seq<u8>, PrinterState, Seq<MdTag>), Error> {
    match ev {
        MdEvent::Start(tag) => start_spec(cfg, st, stack, tag, styles, images),
        MdEvent::End(tag) => end_spec(cfg, st, stack, tag, styles),
        MdEvent::Text(t) => if stack.len() == 0 {
            Err(Error::EmptyRenderTree)
        } else {
            with_stack(print_step(cfg, st, t@), stack)
        },
        MdEvent::Code(t) => match tags_of(stack) {
            None => Err(Error::UnsupportedTag),
            Some(tags) => with_stack(framed_step(cfg, st, styles, tags, StyleTag::Code, Some(t@)), stack),
        },
        MdEvent::SoftBreak => with_stack(print_step(cfg, st, seq![' ']), stack),
        MdEvent::HardBreak => with_stack(print_step(cfg, st, seq!['\n']), stack),
        MdEvent::Rule => match tags_of(stack) {
            None => Err(Error::UnsupportedTag),
            Some(tags) => with_stack(framed_step(cfg, st, styles, tags, StyleTag::Hr, None), stack),
        },
        _ => Err(Error::MarkdownEventUnimplemented),
    }
}

/// What rendering `events` does from state `st`, no tag open at first: all
/// the bytes sent, the state and the open tags after them, or the first
/// library error.
pub open spec fn render(
    cfg: PrinterConfig,
    st: PrinterState,
    events: Seq<MdEvent>,
    styles: StyleSheet,
    images: Seq<EscposImage>,
) -> Result<(Seq<u8>, PrinterState, Seq<MdTag>), Error>
    decreases events.len(),
{
    if events.len() == 0 {
        Ok((Seq::<u8>::empty(), st, Seq::<MdTag>::empty()))
    } else {
        match render(cfg, st, events.drop_last(), styles, images) {
            Err(e) => Err(e),
            Ok((b, s, stk)) => match render_event(cfg, s, stk, events.last(), styles, images) {
                Err(e) => Err(e),
                Ok((b2, s2, stk2)) => Ok((b + b2, s2, stk2)),
            },
        }
    }
}

proof fn lemma_render_err(cfg: PrinterConfig, st: PrinterState, events: Seq<MdEvent>, styles: StyleSheet, images: Seq<EscposImage>, k: int, e: Error)
    requires
        0 <= k <= events.len(),
        render(cfg, st, events.take(k), styles, images) == Err::<(Seq<u8>, PrinterState, Seq<MdTag>), Error>(e),
    ensures
        render(cfg, st, events, styles, images) == Err::<(Seq<u8>, PrinterState, Seq<MdTag>), Error>(e),
    decreases events.len() - k,
{
    if k < events.len() {
        assert(events.take(k + 1).drop_last() == events.take(k));
        lemma_render_err(cfg, st, events, styles, images, k + 1, e);
    } else {
        assert(events.take(k) == events);
    }
}

/// An event went as `res` says, as `step_done` says of a step, with the open
/// tags after it on success.
pub open spec fn event_done(
    w0: Seq<u8>,
    s0: PrinterState,
    w1: Seq<u8>,
    s1: PrinterState,
    stk1: Seq<MdTag>,
    r: Result<(), Error>,
    res: Result<(Seq<u8>, PrinterState, Seq<MdTag>), Error>,
) -> bool {
    &&& r is Ok ==> res is Ok && w1 == w0 + res->Ok_0.0 && s1 == res->Ok_0.1 && stk1 == res->Ok_0.2
    &&& r is Err ==> r->Err_0 == Error::Io || res == Err::<(Seq<u8>, PrinterState, Seq<MdTag>), Error>(r->Err_0)
    &&& res is Err ==> r is Err
}

proof fn lemma_with_stack(w0: Seq<u8>, s0: PrinterState, w1: Seq<u8>, s1: PrinterState, r: Result<(), Error>, s: Step, stk: Seq<MdTag>)
    requires
        step_done(w0, s0, w1, s1, r, s),
    ensures
        event_done(w0, s0, w1, s1, stk, r, with_stack(s, stk)),
{
}

/// One event short enough to print.
pub open spec fn event_fits(ev: MdEvent) -> bool {
    match ev {
        MdEvent::Text(s) => s@.len() <= MAX_TEXT_LEN,
        MdEvent::Code(s) => s@.len() <= MAX_TEXT_LEN,
        _ => true,
    }
}

impl<D: PrinterDevice> Printer<D> {
    /// Prints `text` (or a rule across the line when there is none) in the
    /// style of `tags` with `extra` on top, then returns to the font of `tags`.
    fn framed(&mut self, styles: &StyleSheet, tags: &Vec<StyleTag>, extra: StyleTag, text: Option<&str>) -> (r: Result<(), Error>)
        requires
            old(self).wf(),
            styles.wf(),
            text is Some ==> text->Some_0@.len() <= MAX_TEXT_LEN,
        ensures
            final(self).wf(),
            final(self).spec_config() == old(self).spec_config(),
            step_done(
                old(self).spec_written(),
                old(self).spec_state(),
                final(self).spec_written(),
                final(self).spec_state(),
                r,
                framed_step(
                    old(self).spec_config(),
                    old(self).spec_state(),
                    *styles,
                    tags@,
                    extra,
                    match text {
                        Some(t) => Some(t@),
                        None => None,
                    },
                ),
            ),
    {
        let ghost cfg = self.spec_config();
        let ghost (w0, s0) = (self.spec_written(), self.spec_state());
        let ghost tx = match text {
            Some(t) => Some(t@),
            None => None::<Seq<char>>,
        };
        let mut inner = tags.clone();
        inner.push(extra);
        proof {
            assert(inner@ == tags@.push(extra));
        }
        let style = styles.get(inner.as_slice());
        let ghost a = enter_step(cfg, s0, style);
        let r1 = self.enter_do(&style);
        let ghost sa = state_of(a, s0);
        let ghost line = match tx {
            Some(t) => t,
            None => bar_line(bar_count(cfg, sa)).push('\n'),
        };
        let ghost b = print_step(cfg, sa, line);
        let ghost ab = then_step(a, b);
        let ghost c = close_step(state_of(ab, s0), style);
        let ghost abc = then_step(ab, c);
        let ghost d = font_step(state_of(abc, s0), style_for(*styles, tags@));
        if r1.is_err() {
            proof {
                lemma_then_stop(w0, s0, self.spec_written(), self.spec_state(), r1, a, b);
                lemma_then_stop(w0, s0, self.spec_written(), self.spec_state(), r1, ab, c);
                lemma_then_stop(w0, s0, self.spec_written(), self.spec_state(), r1, abc, d);
            }
            return r1;
        }
        let ghost (w1, s1) = (self.spec_written(), self.spec_state());
        let r2 = match text {
            Some(t) => self.print_do(t),
            None => {
                let cs = self.calc_char_size();
                let bars = if cs == 0 {
                    0
                } else {
                    self.printable_width() / cs
                };
                assert(bars <= 0xFFFF);
                let l = rule_line(bars);
                self.println_do(l.as_str())
            },
        };
        proof {
            lemma_then(w0, s0, w1, s1, self.spec_written(), self.spec_state(), r1, r2, a, b);
        }
        if r2.is_err() {
            proof {
                lemma_then_stop(w0, s0, self.spec_written(), self.spec_state(), r2, ab, c);
                lemma_then_stop(w0, s0, self.spec_written(), self.spec_state(), r2, abc, d);
            }
            return r2;
        }
        let ghost (w2, s2) = (self.spec_written(), self.spec_state());
        let r3 = self.close_do(&style);
        proof {
            lemma_then(w0, s0, w2, s2, self.spec_written(), self.spec_state(), r2, r3, ab, c);
        }
        if r3.is_err() {
            proof {
                lemma_then_stop(w0, s0, self.spec_written(), self.spec_state(), r3, abc, d);
            }
            return r3;
        }
        let ghost (w3, s3) = (self.spec_written(), self.spec_state());
        let outer = styles.get(tags.as_slice());
        let r4 = self.font_do(&outer);
        proof {
            lemma_then(w0, s0, w3, s3, self.spec_written(), self.spec_state(), r3, r4, abc, d);
        }
        r4
    }

    fn start_one(
        &mut self,
        state: &mut RendererState,
        tag: MdTag,
        opts: &MarkdownRenderOptions,
        images: &Vec<EscposImage>,
    ) -> (r: Result<(), Error>)
        requires
            old(self).wf(),
            opts.styles.wf(),
            images_fit(images@),
        ensures
            final(self).wf(),
            final(self).spec_config() == old(self).spec_config(),
            event_done(
                old(self).spec_written(),
                old(self).spec_state(),
                final(self).spec_written(),
                final(self).spec_state(),
                final(state).tags(),
                r,
                start_spec(old(self).spec_config(), old(self).spec_state(), old(state).tags(), tag, opts.styles, images@),
            ),
    {
        let ghost cfg = self.spec_config();
        let ghost (w0, s0) = (self.spec_written(), self.spec_state());
        let ghost stk0 = state.tags();
        let ghost styles = opts.styles;

        state.push_tag(tag)?;
        let tags = state.style_tags()?;
        let style = opts.styles.get(tags.as_slice());
        let ghost a = enter_step(cfg, s0, style);
        let r1 = self.enter_do(&style);
        if let MdTag::Image(k) = tag {
            let ghost b = if k < images@.len() {
                image_step(cfg, state_of(a, s0), images@[k as int])
            } else {
                Err(Error::UnsupportedTag)
            };
            let ghost ab = then_step(a, b);
            let ghost c = enter_step(cfg, state_of(ab, s0), style_for(styles, tags@.push(StyleTag::ImgCaption)));
            if r1.is_err() {
                proof {
                    lemma_then_stop(w0, s0, self.spec_written(), self.spec_state(), r1, a, b);
                    lemma_then_stop(w0, s0, self.spec_written(), self.spec_state(), r1, ab, c);
                }
                return r1;
            }
            let ghost (w1, s1) = (self.spec_written(), self.spec_state());
            let r2 = if k >= images.len() {
                Err(Error::UnsupportedTag)
            } else {
                self.image_do(&images[k])
            };
            proof {
                lemma_then(w0, s0, w1, s1, self.spec_written(), self.spec_state(), r1, r2, a, b);
            }
            if r2.is_err() {
                proof {
                    lemma_then_stop(w0, s0, self.spec_written(), self.spec_state(), r2, ab, c);
                }
                return r2;
            }
            let ghost (w2, s2) = (self.spec_written(), self.spec_state());
            let mut caption = tags.clone();
            caption.push(StyleTag::ImgCaption);
            proof {
                assert(caption@ == tags@.push(StyleTag::ImgCaption));
            }
            let caption_style = opts.styles.get(caption.as_slice());
            let r3 = self.enter_do(&caption_style);
            proof {
                lemma_then(w0, s0, w2, s2, self.spec_written(), self.spec_state(), r2, r3, ab, c);
            }
            r3
        } else {
            r1
        }
        }

    fn end_one(&mut self, state: &mut RendererState, tag: MdTag, opts: &MarkdownRenderOptions) -> (r: Result<(), Error>)
        requires
            old(self).wf(),
            opts.styles.wf(),
        ensures
            final(self).wf(),
            final(self).spec_config() == old(self).spec_config(),
            event_done(
                old(self).spec_written(),
                old(self).spec_state(),
                final(self).spec_written(),
                final(self).spec_state(),
                final(state).tags(),
                r,
                end_spec(old(self).spec_config(), old(self).spec_state(), old(state).tags(), tag, opts.styles),
            ),
    {
        let ghost cfg = self.spec_config();
        let ghost (w0, s0) = (self.spec_written(), self.spec_state());
        let ghost stk0 = state.tags();
        let ghost styles = opts.styles;

        let tags = state.style_tags()?;
        let ghost a = match tag {
            MdTag::Image(_) => close_step(s0, style_for(styles, tags@.push(StyleTag::ImgCaption))),
            _ => Ok((Seq::<u8>::empty(), s0)),
        };
        let r1 = if let MdTag::Image(_) = tag {
            let mut caption = tags.clone();
            caption.push(StyleTag::ImgCaption);
            proof {
                assert(caption@ == tags@.push(StyleTag::ImgCaption));
            }
            let caption_style = opts.styles.get(caption.as_slice());
            self.close_do(&caption_style)
        } else {
            proof {
                assert(w0 + Seq::<u8>::empty() == w0);
            }
            Ok(())
        };
        let style = opts.styles.get(tags.as_slice());
        let ghost b = close_step(state_of(a, s0), style);
        let ghost ab = then_step(a, b);
        if r1.is_err() {
            proof {
                lemma_then_stop(w0, s0, self.spec_written(), self.spec_state(), r1, a, b);
                lemma_then_stop(w0, s0, self.spec_written(), self.spec_state(), r1, ab, Err(Error::UnexpectedTag));
                lemma_then_stop(w0, s0, self.spec_written(), self.spec_state(), r1, ab, Err(Error::UnsupportedTag));
            }
            return r1;
        }
        let ghost (w1, s1) = (self.spec_written(), self.spec_state());
        let r2 = self.close_do(&style);
        proof {
            lemma_then(w0, s0, w1, s1, self.spec_written(), self.spec_state(), r1, r2, a, b);
        }
        if r2.is_err() {
            proof {
                lemma_then_stop(w0, s0, self.spec_written(), self.spec_state(), r2, ab, Err(Error::UnexpectedTag));
                lemma_then_stop(w0, s0, self.spec_written(), self.spec_state(), r2, ab, Err(Error::UnsupportedTag));
            }
            return r2;
        }
        let ghost (w2, s2) = (self.spec_written(), self.spec_state());
        let popped = state.pop_tag(&tag);
        if popped.is_err() {
            proof {
                lemma_then(w0, s0, w2, s2, w2, s2, r2, popped, ab, Err(Error::UnexpectedTag));
            }
            return popped;
        }
        let outer = match state.style_tags() {
            Ok(t) => t,
            Err(e) => {
                proof {
                    lemma_then(w0, s0, w2, s2, w2, s2, r2, Err(e), ab, Err(Error::UnsupportedTag));
                }
                return Err(e);
            },
        };
        let outer_style = opts.styles.get(outer.as_slice());
        let ghost c = font_step(state_of(ab, s0), style_for(styles, outer@));
        let r3 = self.font_do(&outer_style);
        proof {
            lemma_then(w0, s0, w2, s2, self.spec_written(), self.spec_state(), r2, r3, ab, c);
        }
        r3
        }

    /// Renders one event, as `render_event` says.
    fn render_one(
        &mut self,
        state: &mut RendererState,
        event: &MdEvent,
        opts: &MarkdownRenderOptions,
        images: &Vec<EscposImage>,
    ) -> (r: Result<(), Error>)
        requires
            old(self).wf(),
            opts.styles.wf(),
            event_fits(*event),
            images_fit(images@),
        ensures
            final(self).wf(),
            final(self).spec_config() == old(self).spec_config(),
            event_done(
                old(self).spec_written(),
                old(self).spec_state(),
                final(self).spec_written(),
                final(self).spec_state(),
                final(state).tags(),
                r,
                render_event(old(self).spec_config(), old(self).spec_state(), old(state).tags(), *event, opts.styles, images@),
            ),
    {
        let ghost cfg = self.spec_config();
        let ghost (w0, s0) = (self.spec_written(), self.spec_state());
        let ghost stk0 = state.tags();
        let ghost styles = opts.styles;
        proof {
            reveal(render_event);
        }
        match event {
            MdEvent::Start(tag) => self.start_one(state, *tag, opts, images),
            MdEvent::End(tag) => self.end_one(state, *tag, opts),
            MdEvent::Text(text) => {
                if state.tree.len() == 0 {
                    return Err(Error::EmptyRenderTree);
                }
                let r = self.print_do(text.as_str());
                proof {
                    lemma_with_stack(w0, s0, self.spec_written(), self.spec_state(), r, print_step(cfg, s0, text@), stk0);
                }
                r
            },
            MdEvent::Code(text) => {
                let tags = state.style_tags()?;
                let r = self.framed(&opts.styles, &tags, StyleTag::Code, Some(text.as_str()));
                proof {
                    lemma_with_stack(w0, s0, self.spec_written(), self.spec_state(), r, framed_step(cfg, s0, styles, tags@, StyleTag::Code, Some(text@)), stk0);
                }
                r
            },
            MdEvent::SoftBreak => {
                proof {
                    reveal_strlit(" ");
                    assert(" "@ =~= seq![' ']);
                }
                let r = self.print_do(" ");
                proof {
                    lemma_with_stack(w0, s0, self.spec_written(), self.spec_state(), r, print_step(cfg, s0, seq![' ']), stk0);
                }
                r
            },
            MdEvent::HardBreak => {
                proof {
                    reveal_strlit("");
                    assert(""@.push('\n') =~= seq!['\n']);
                }
                let r = self.println_do("");
                proof {
                    lemma_with_stack(w0, s0, self.spec_written(), self.spec_state(), r, print_step(cfg, s0, seq!['\n']), stk0);
                }
                r
            },
            MdEvent::Rule => {
                let tags = state.style_tags()?;
                let r = self.framed(&opts.styles, &tags, StyleTag::Hr, None);
                proof {
                    lemma_with_stack(w0, s0, self.spec_written(), self.spec_state(), r, framed_step(cfg, s0, styles, tags@, StyleTag::Hr, None), stk0);
                }
                r
            },
            _ => Err(Error::MarkdownEventUnimplemented),
        }
    }

    /// Renders Markdown events, as `render` says: each start tag sets the
    /// style that the stylesheet gives the open tags and opens its block (an
    /// image is printed, then its caption block opened); each end tag closes
    /// the block and returns to the font of the enclosing tags; text is
    /// printed, inline code and rules in their own style; a soft break prints
    /// a space and a hard break a line feed. Other events are refused. On
    /// failure the error is the sink's or the first one `render` names.
    pub fn markdown(
        &mut self,
        events: &Vec<MdEvent>,
        opts: &MarkdownRenderOptions,
        images: &Vec<EscposImage>,
    ) -> (r: Result<(), Error>)
        requires
            old(self).wf(),
            opts.styles.wf(),
            texts_fit(events@),
            images_fit(images@),
        ensures
            final(self).wf(),
            final(self).spec_config() == old(self).spec_config(),
            r is Ok ==> {
                let res = render(old(self).spec_config(), old(self).spec_state(), events@, opts.styles, images@);
                &&& res is Ok
                &&& final(self).spec_written() == old(self).spec_written() + res->Ok_0.0
                &&& final(self).spec_state() == res->Ok_0.1
            },
            r is Err ==> r->Err_0 == Error::Io || render(old(self).spec_config(), old(self).spec_state(), events@, opts.styles, images@)
                == Err::<(Seq<u8>, PrinterState, Seq<MdTag>), Error>(r->Err_0),
            render(old(self).spec_config(), old(self).spec_state(), events@, opts.styles, images@) is Err ==> r is Err,
            events@.len() == 0 ==> r is Ok && *final(self) == *old(self),
    {
        let ghost cfg = self.spec_config();
        let ghost (w0, s0) = (self.spec_written(), self.spec_state());
        let mut state = RendererState { tree: Vec::new() };
        proof {
            assert(state.tags() =~= Seq::<MdTag>::empty());
            assert(events@.take(0) =~= Seq::<MdEvent>::empty());
            assert(w0 + Seq::<u8>::empty() == w0);
        }
        let mut i: usize = 0;
        while i < events.len()
            invariant
                i <= events@.len(),
                self.wf(),
                self.spec_config() == cfg,
                cfg == old(self).spec_config(),
                w0 == old(self).spec_written(),
                s0 == old(self).spec_state(),
                opts.styles.wf(),
                texts_fit(events@),
                images_fit(images@),
                render(cfg, s0, events@.take(i as int), opts.styles, images@) is Ok,
                self.spec_written() == w0 + render(cfg, s0, events@.take(i as int), opts.styles, images@)->Ok_0.0,
                self.spec_state() == render(cfg, s0, events@.take(i as int), opts.styles, images@)->Ok_0.1,
                state.tags() == render(cfg, s0, events@.take(i as int), opts.styles, images@)->Ok_0.2,
                events@.len() == 0 ==> *self == *old(self),
            decreases events@.len() - i,
        {
            proof {
                assert(events@.take(i + 1).drop_last() == events@.take(i as int));
                assert(events@.take(i + 1).last() == events@[i as int]);
                assert(event_fits(events@[i as int]));
            }
            let ghost wb = render(cfg, s0, events@.take(i as int), opts.styles, images@)->Ok_0.0;
            let ghost (w1, s1) = (self.spec_written(), self.spec_state());
            let r = self.render_one(&mut state, &events[i], opts, images);
            if r.is_err() {
                proof {
                    let e = r->Err_0;
                    if e != Error::Io {
                        lemma_render_err(cfg, s0, events@, opts.styles, images@, i + 1, e);
                    }
                }
                return r;
            }
            proof {
                let res = render_event(cfg, s1, render(cfg, s0, events@.take(i as int), opts.styles, images@)->Ok_0.2, events@[i as int], opts.styles, images@);
                assert(self.spec_written() == w0 + (wb + res->Ok_0.0));
            }
            i += 1;
        }
        proof {
            assert(events@.take(events@.len() as int) == events@);
        }
        Ok(())
    }
}

impl<D: PrinterDevice> Printer<D> {
    fn font_do(&mut self, style: &Style) -> (r: Result<(), Error>)
        requires
            old(self).wf(),
        ensures
            final(self).wf(),
            final(self).spec_config() == old(self).spec_config(),
            step_done(old(self).spec_written(), old(self).spec_state(), final(self).spec_written(), final(self).spec_state(), r, font_step(old(self).spec_state(), *style)),
    {
        self.font_style(style)
    }

    fn open_do(&mut self, style: &Style) -> (r: Result<(), Error>)
        requires
            old(self).wf(),
            style.prefix@.len() <= MAX_TEXT_LEN,
        ensures
            final(self).wf(),
            final(self).spec_config() == old(self).spec_config(),
            step_done(old(self).spec_written(), old(self).spec_state(), final(self).spec_written(), final(self).spec_state(), r, open_step(old(self).spec_config(), old(self).spec_state(), *style)),
    {
        self.begin_block_style(style)
    }

    fn enter_do(&mut self, style: &Style) -> (r: Result<(), Error>)
        requires
            old(self).wf(),
            style.prefix@.len() <= MAX_TEXT_LEN,
        ensures
            final(self).wf(),
            final(self).spec_config() == old(self).spec_config(),
            step_done(old(self).spec_written(), old(self).spec_state(), final(self).spec_written(), final(self).spec_state(), r, enter_step(old(self).spec_config(), old(self).spec_state(), *style)),
    {
        let ghost (w0, s0) = (self.spec_written(), self.spec_state());
        let r1 = self.font_do(style);
        let ghost a = font_step(s0, *style);
        let ghost b = open_step(self.spec_config(), state_of(a, s0), *style);
        if r1.is_err() {
            proof {
                lemma_then_stop(w0, s0, self.spec_written(), self.spec_state(), r1, a, b);
            }
            return r1;
        }
        let ghost (w1, s1) = (self.spec_written(), self.spec_state());
        let r2 = self.open_do(style);
        proof {
            lemma_then(w0, s0, w1, s1, self.spec_written(), self.spec_state(), r1, r2, a, b);
        }
        r2
    }

    fn close_do(&mut self, style: &Style) -> (r: Result<(), Error>)
        requires
            old(self).wf(),
        ensures
            final(self).wf(),
            final(self).spec_config() == old(self).spec_config(),
            step_done(old(self).spec_written(), old(self).spec_state(), final(self).spec_written(), final(self).spec_state(), r, close_step(old(self).spec_state(), *style)),
    {
        let r = self.end_block_style(style);
        proof {
            assert(old(self).spec_written() + Seq::<u8>::empty() == old(self).spec_written());
        }
        r
    }

    fn print_do(&mut self, text: &str) -> (r: Result<(), Error>)
        requires
            old(self).wf(),
            text@.len() <= MAX_TEXT_LEN,
        ensures
            final(self).wf(),
            final(self).spec_config() == old(self).spec_config(),
            step_done(old(self).spec_written(), old(self).spec_state(), final(self).spec_written(), final(self).spec_state(), r, print_step(old(self).spec_config(), old(self).spec_state(), text@)),
    {
        self.print(text)
    }

    fn println_do(&mut self, text: &str) -> (r: Result<(), Error>)
        requires
            old(self).wf(),
            text@.len() < MAX_TEXT_LEN,
        ensures
            final(self).wf(),
            final(self).spec_config() == old(self).spec_config(),
            step_done(old(self).spec_written(), old(self).spec_state(), final(self).spec_written(), final(self).spec_state(), r, print_step(old(self).spec_config(), old(self).spec_state(), text@.push('\n'))),
    {
        self.println(text)
    }

    fn image_do(&mut self, img: &EscposImage) -> (r: Result<(), Error>)
        requires
            old(self).wf(),
            img.wf(),
            img.fits_within(0xFFFF),
        ensures
            final(self).wf(),
            final(self).spec_config() == old(self).spec_config(),
            step_done(old(self).spec_written(), old(self).spec_state(), final(self).spec_written(), final(self).spec_state(), r, image_step(old(self).spec_config(), old(self).spec_state(), *img)),
    {
        proof {
            assert(old(self).spec_printable_width() == width_of(old(self).spec_config(), old(self).spec_state()));
        }
        self.image(img)
    }
}

} // verus!
