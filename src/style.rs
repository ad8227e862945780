use crate::command::{CharMagnification, Command, Font, Justification, UnderlineThickness};
use crate::config::DEFAULT_CHAR_SPACING;
use crate::error::Error;
use crate::config::PrinterConfig;
use crate::printer::{
    commands_bytes, cp437_of, feed_paper_commands, printed_bytes_at, printed_offset_at, Printer,
    PrinterDevice, PrinterState, MAX_TEXT_LEN,
};
use crate::rule::{
    parse_rules, selector_fault, selector_strings, selector_symbols, stack_ops, Language, Rule,
    MAX_SELECTOR_LEN,
};
use crate::style_tag::StyleTag;
use vstd::prelude::*;

verus! {

#[derive(Clone, Copy, Debug, PartialEq, Eq, Structural)]
pub enum Display {
    Inline,
    Block,
}

/// The effective style of a node.
#[derive(Debug, PartialEq, Eq)]
pub struct Style {
    pub display: Display,
    // font styles
    pub bold: bool,
    pub char_magnification: CharMagnification,
    pub char_spacing: usize,
    pub font: Font,
    pub line_spacing: Option<usize>,
    pub split_words: bool,
    pub underline: UnderlineThickness,
    pub white_black_reverse: bool,
    // block styles
    pub prefix: String,
    pub justification: Justification,
    pub margin_left: usize,
    pub margin_bottom: usize,
    pub margin_top: usize,
}

/// A sparse patch over a style: each field that is set replaces the style's.
#[derive(Debug)]
pub struct RelativeStyle {
    pub display: Option<Display>,
    pub prefix: Option<String>,
    pub font: Option<Font>,
    pub font_width: Option<u8>,
    pub font_height: Option<u8>,
    pub underline: Option<UnderlineThickness>,
    pub bold: Option<bool>,
    pub white_black_reverse: Option<bool>,
    pub split_words: Option<bool>,
    pub justification: Option<Justification>,
    pub char_spacing: Option<usize>,
    pub line_spacing: Option<Option<usize>>,
    pub margin_top: Option<usize>,
    pub margin_bottom: Option<usize>,
    pub margin_left: Option<usize>,
}

pub open spec fn or_else<T>(o: Option<T>, d: T) -> T {
    match o {
        Some(v) => v,
        None => d,
    }
}

/// The style after the font fields of `r`; the magnification takes the
/// width and height that `r` sets, each moved into `[1, 8]`.
pub open spec fn font_applied(s: Style, r: RelativeStyle) -> Style {
    Style {
        font: or_else(r.font, s.font),
        underline: or_else(r.underline, s.underline),
        bold: or_else(r.bold, s.bold),
        white_black_reverse: or_else(r.white_black_reverse, s.white_black_reverse),
        split_words: or_else(r.split_words, s.split_words),
        char_spacing: or_else(r.char_spacing, s.char_spacing),
        line_spacing: or_else(r.line_spacing, s.line_spacing),
        char_magnification: CharMagnification::spec_clamped(
            or_else(r.font_width, s.char_magnification.spec_width()),
            or_else(r.font_height, s.char_magnification.spec_height()),
        ),
        ..s
    }
}

/// The style after the block fields of `r`.
pub open spec fn block_applied(s: Style, r: RelativeStyle) -> Style {
    Style {
        display: or_else(r.display, s.display),
        prefix: or_else(r.prefix, s.prefix),
        justification: or_else(r.justification, s.justification),
        margin_top: or_else(r.margin_top, s.margin_top),
        margin_bottom: or_else(r.margin_bottom, s.margin_bottom),
        margin_left: or_else(r.margin_left, s.margin_left),
        ..s
    }
}

fn copy_prefix(p: &Option<String>) -> (r: Option<String>)
    ensures
        r == *p,
{
    match p {
        Some(s) => Some(s.clone()),
        None => None,
    }
}

impl Style {
    /// Block display, no prefix, first font, no magnification, wrapping on,
    /// left justified, device line spacing, default spacing, no margins.
    pub fn new() -> (r: Style)
        ensures
            r.display == Display::Block,
            r.prefix@ == Seq::<char>::empty(),
            r.font == Font::FontA,
            r.char_magnification == CharMagnification::spec_one(),
            r.underline == UnderlineThickness::Off,
            !r.bold,
            !r.white_black_reverse,
            r.split_words,
            r.justification == Justification::Left,
            r.line_spacing is None,
            r.char_spacing == DEFAULT_CHAR_SPACING,
            r.margin_top == 0 && r.margin_bottom == 0 && r.margin_left == 0,
    {
        Style {
            display: Display::Block,
            prefix: String::new(),
            font: Font::FontA,
            char_magnification: CharMagnification::one(),
            underline: UnderlineThickness::Off,
            bold: false,
            white_black_reverse: false,
            split_words: true,
            justification: Justification::Left,
            line_spacing: None,
            char_spacing: DEFAULT_CHAR_SPACING,
            margin_top: 0,
            margin_bottom: 0,
            margin_left: 0,
        }
    }

    pub fn copy(&self) -> (r: Style)
        ensures
            r == *self,
    {
        Style {
            display: self.display,
            bold: self.bold,
            char_magnification: self.char_magnification,
            char_spacing: self.char_spacing,
            font: self.font,
            line_spacing: self.line_spacing,
            split_words: self.split_words,
            underline: self.underline,
            white_black_reverse: self.white_black_reverse,
            prefix: self.prefix.clone(),
            justification: self.justification,
            margin_left: self.margin_left,
            margin_bottom: self.margin_bottom,
            margin_top: self.margin_top,
        }
    }

    /// Merges the font fields of `style`: font, underline, bold, reverse,
    /// wrapping, spacings and magnification.
    pub fn apply_font(&mut self, style: &RelativeStyle)
        ensures
            *final(self) == font_applied(*old(self), *style),
    {
        let w = match style.font_width {
            Some(w) => w,
            None => self.char_magnification.width(),
        };
        let h = match style.font_height {
            Some(h) => h,
            None => self.char_magnification.height(),
        };
        let font = match style.font {
            Some(v) => v,
            None => self.font,
        };
        let underline = match style.underline {
            Some(v) => v,
            None => self.underline,
        };
        let bold = match style.bold {
            Some(v) => v,
            None => self.bold,
        };
        let white_black_reverse = match style.white_black_reverse {
            Some(v) => v,
            None => self.white_black_reverse,
        };
        let split_words = match style.split_words {
            Some(v) => v,
            None => self.split_words,
        };
        let char_spacing = match style.char_spacing {
            Some(v) => v,
            None => self.char_spacing,
        };
        let line_spacing = match style.line_spacing {
            Some(v) => v,
            None => self.line_spacing,
        };
        self.font = font;
        self.underline = underline;
        self.bold = bold;
        self.white_black_reverse = white_black_reverse;
        self.split_words = split_words;
        self.char_spacing = char_spacing;
        self.line_spacing = line_spacing;
        self.char_magnification = CharMagnification::clamped(w, h);
    }

    /// Merges the block fields of `style`: display, prefix, justification and margins.
    pub fn apply_block(&mut self, style: &RelativeStyle)
        ensures
            *final(self) == block_applied(*old(self), *style),
    {
        if let Some(v) = style.display {
            self.display = v;
        }
        let p = copy_prefix(&style.prefix);
        if let Some(v) = p {
            self.prefix = v;
        }
        if let Some(v) = style.justification {
            self.justification = v;
        }
        if let Some(v) = style.margin_top {
            self.margin_top = v;
        }
        if let Some(v) = style.margin_bottom {
            self.margin_bottom = v;
        }
        if let Some(v) = style.margin_left {
            self.margin_left = v;
        }
    }
}

impl RelativeStyle {
    /// A patch that sets nothing.
    pub fn new() -> (r: RelativeStyle)
        ensures
            r == RelativeStyle::spec_empty(),
    {
        RelativeStyle {
            display: None,
            prefix: None,
            font: None,
            font_width: None,
            font_height: None,
            underline: None,
            bold: None,
            white_black_reverse: None,
            split_words: None,
            justification: None,
            char_spacing: None,
            line_spacing: None,
            margin_top: None,
            margin_bottom: None,
            margin_left: None,
        }
    }

    pub open spec fn spec_empty() -> RelativeStyle {
        RelativeStyle {
            display: None,
            prefix: None,
            font: None,
            font_width: None,
            font_height: None,
            underline: None,
            bold: None,
            white_black_reverse: None,
            split_words: None,
            justification: None,
            char_spacing: None,
            line_spacing: None,
            margin_top: None,
            margin_bottom: None,
            margin_left: None,
        }
    }

    pub fn copy(&self) -> (r: RelativeStyle)
        ensures
            r == *self,
    {
        RelativeStyle {
            display: self.display,
            prefix: copy_prefix(&self.prefix),
            font: self.font,
            font_width: self.font_width,
            font_height: self.font_height,
            underline: self.underline,
            bold: self.bold,
            white_black_reverse: self.white_black_reverse,
            split_words: self.split_words,
            justification: self.justification,
            char_spacing: self.char_spacing,
            line_spacing: self.line_spacing,
            margin_top: self.margin_top,
            margin_bottom: self.margin_bottom,
            margin_left: self.margin_left,
        }
    }
}

/// The style of a stack under `rules`, applied in order to `base`: a rule
/// that matches the stack loosely merges its font fields, and one that also
/// matches exactly merges its block fields after them.
pub open spec fn cascade(base: Style, rules: Seq<(Rule, RelativeStyle)>, tree: Seq<StyleTag>) -> Style
    decreases rules.len(),
{
    if rules.len() == 0 {
        base
    } else {
        let s = cascade(base, rules.drop_last(), tree);
        let (rule, rel) = rules.last();
        if rule.spec_loose().spec_accepts(stack_ops(tree)) {
            let f = font_applied(s, rel);
            if rule.spec_exact().spec_accepts(stack_ops(tree)) {
                block_applied(f, rel)
            } else {
                f
            }
        } else {
            s
        }
    }
}

/// A base style and an ordered list of rules; later rules override earlier ones.
pub struct StyleSheet {
    base: Style,
    rules: Vec<(Rule, RelativeStyle)>,
}

/// A patch whose prefix, if any, is at most `MAX_TEXT_LEN` characters.
pub open spec fn prefix_fits(r: RelativeStyle) -> bool {
    r.prefix is Some ==> r.prefix->Some_0@.len() <= MAX_TEXT_LEN
}

proof fn lemma_cascade_prefix(base: Style, rules: Seq<(Rule, RelativeStyle)>, tree: Seq<StyleTag>)
    requires
        base.prefix@.len() <= MAX_TEXT_LEN,
        forall|i: int| 0 <= i < rules.len() ==> prefix_fits(#[trigger] rules[i].1),
    ensures
        cascade(base, rules, tree).prefix@.len() <= MAX_TEXT_LEN,
    decreases rules.len(),
{
    if rules.len() > 0 {
        lemma_cascade_prefix(base, rules.drop_last(), tree);
        assert(prefix_fits(rules[rules.len() - 1].1));
    }
}

impl StyleSheet {
    pub closed spec fn spec_base(&self) -> Style {
        self.base
    }

    /// Every prefix of the sheet is at most `MAX_TEXT_LEN` characters.
    pub open spec fn wf(&self) -> bool {
        &&& self.spec_base().prefix@.len() <= MAX_TEXT_LEN
        &&& forall|i: int| 0 <= i < self.spec_rules().len() ==> prefix_fits(#[trigger] self.spec_rules()[i].1)
    }

    pub closed spec fn spec_rules(&self) -> Seq<(Rule, RelativeStyle)> {
        self.rules@
    }

    pub fn new(base: Style) -> (r: StyleSheet)
        requires
            base.prefix@.len() <= MAX_TEXT_LEN,
        ensures
            r.wf(),
            r.spec_base() == base,
            r.spec_rules() == Seq::<(Rule, RelativeStyle)>::empty(),
    {
        StyleSheet { base, rules: Vec::new() }
    }

    /// Adds one rule for each comma-separated selector of `rule`, all with
    /// `style`; nothing is added if a selector does not compile.
    pub fn push(&mut self, rule: &str, style: RelativeStyle) -> (r: Result<(), Error>)
        requires
            old(self).wf(),
            rule@.len() <= MAX_SELECTOR_LEN,
            prefix_fits(style),
        ensures
            final(self).wf(),
            final(self).spec_base() == old(self).spec_base(),
            r is Ok <==> forall|i: int|
                0 <= i < selector_strings(rule@).len() ==> (#[trigger] selector_symbols(
                    selector_strings(rule@)[i],
                )) is Some,
            r is Err ==> final(self).spec_rules() == old(self).spec_rules(),
            r is Err ==> exists|i: int|
                0 <= i < selector_strings(rule@).len() && (forall|m: int| 0 <= m < i ==> (#[trigger] selector_symbols(selector_strings(rule@)[m])) is Some)
                    && selector_fault(#[trigger] selector_strings(rule@)[i], r->Err_0),
            r is Ok ==> final(self).spec_rules().len() == old(self).spec_rules().len()
                + selector_strings(rule@).len(),
            r is Ok ==> final(self).spec_rules().take(old(self).spec_rules().len() as int) == old(
                self,
            ).spec_rules(),
            r is Ok ==> forall|i: int|
                0 <= i < selector_strings(rule@).len() ==> {
                    let e = #[trigger] final(self).spec_rules()[old(self).spec_rules().len() + i];
                    &&& Some(e.0.spec_symbols()) == selector_symbols(selector_strings(rule@)[i])
                    &&& e.1 == style
                    &&& e.0.wf()
                },
    {
        let rules = parse_rules(rule)?;
        let ghost old_rules = self.rules@;
        let mut i: usize = 0;
        while i < rules.len()
            invariant
                i <= rules@.len(),
                rules@.len() == selector_strings(rule@).len(),
                forall|m: int| 0 <= m < rules@.len() ==> Some((#[trigger] rules@[m]).spec_symbols())
                    == selector_symbols(selector_strings(rule@)[m]),
                forall|m: int| 0 <= m < rules@.len() ==> (#[trigger] rules@[m]).wf(),
                self.base == old(self).spec_base(),
                old(self).wf(),
                prefix_fits(style),
                forall|m: int| 0 <= m < self.rules@.len() ==> prefix_fits(#[trigger] self.rules@[m].1),
                old_rules == old(self).spec_rules(),
                self.rules@.len() == old_rules.len() + i,
                self.rules@.take(old_rules.len() as int) == old_rules,
                forall|m: int| 0 <= m < i ==> {
                    let e = #[trigger] self.rules@[old_rules.len() + m];
                    &&& e.0.spec_symbols() == rules@[m].spec_symbols()
                    &&& e.1 == style
                    &&& e.0.wf()
                },
            decreases rules@.len() - i,
        {
            let ghost before = self.rules@;
            self.rules.push((rules[i].copy(), style.copy()));
            proof {
                assert(self.rules@.take(old_rules.len() as int) == before.take(old_rules.len() as int));
                assert forall|m: int| 0 <= m < self.rules@.len() implies prefix_fits(#[trigger] self.rules@[m].1) by {
                    if m < before.len() {
                        assert(self.rules@[m] == before[m]);
                    }
                }
                assert forall|m: int| 0 <= m < i + 1 implies {
                    let e = #[trigger] self.rules@[old_rules.len() + m];
                    &&& e.0.spec_symbols() == rules@[m].spec_symbols()
                    &&& e.1 == style
                    &&& e.0.wf()
                } by {
                    if m < i {
                        assert(self.rules@[old_rules.len() + m] == before[old_rules.len() + m]);
                    }
                }
            }
            i += 1;
        }
        Ok(())
    }

    /// The style of the node at the top of `tree`.
    pub fn get(&self, tree: &[StyleTag]) -> (r: Style)
        ensures
            r == cascade(self.spec_base(), self.spec_rules(), tree@),
            self.wf() ==> r.prefix@.len() <= MAX_TEXT_LEN,
    {
        proof {
            if self.wf() {
                lemma_cascade_prefix(self.base, self.rules@, tree@);
            }
        }
        let mut style = self.base.copy();
        let mut i: usize = 0;
        while i < self.rules.len()
            invariant
                i <= self.rules@.len(),
                style == cascade(self.base, self.rules@.take(i as int), tree@),
            decreases self.rules@.len() - i,
        {
            proof {
                assert(self.rules@.take(i + 1).drop_last() == self.rules@.take(i as int));
                assert(self.rules@.take(i + 1).last() == self.rules@[i as int]);
            }
            let rule = &self.rules[i].0;
            let rel_style = &self.rules[i].1;
            if rule.matches_loose(tree) {
                style.apply_font(rel_style);
                if rule.matches_exact(tree) {
                    style.apply_block(rel_style);
                }
            }
            i += 1;
        }
        proof {
            assert(self.rules@.take(self.rules@.len() as int) == self.rules@);
        }
        style
    }
}

/// A rule that does not match a stack loosely leaves the cascade unchanged
/// when it is taken out.
pub proof fn lemma_cascade_without_unmatched(
    base: Style,
    rules: Seq<(Rule, RelativeStyle)>,
    tree: Seq<StyleTag>,
    k: int,
)
    requires
        0 <= k < rules.len(),
        !rules[k].0.spec_loose().spec_accepts(stack_ops(tree)),
    ensures
        cascade(base, rules, tree) == cascade(base, rules.remove(k), tree),
    decreases rules.len(),
{
    if k == rules.len() - 1 {
        assert(rules.remove(k) == rules.drop_last());
    } else {
        lemma_cascade_without_unmatched(base, rules.drop_last(), tree, k);
        assert(rules.remove(k).drop_last() == rules.drop_last().remove(k));
        assert(rules.remove(k).last() == rules.last());
    }
}

/// The cascade depends only on the stack and the order of the rules:
/// swapping two rules that do not match the stack leaves the style unchanged.
pub proof fn lemma_cascade_swap_unmatched(
    base: Style,
    rules: Seq<(Rule, RelativeStyle)>,
    tree: Seq<StyleTag>,
    i: int,
    j: int,
)
    requires
        0 <= i < j < rules.len(),
        !rules[i].0.spec_loose().spec_accepts(stack_ops(tree)),
        !rules[j].0.spec_loose().spec_accepts(stack_ops(tree)),
    ensures
        cascade(base, rules.update(i, rules[j]).update(j, rules[i]), tree) == cascade(
            base,
            rules,
            tree,
        ),
{
    let swapped = rules.update(i, rules[j]).update(j, rules[i]);
    lemma_cascade_without_unmatched(base, rules, tree, j);
    lemma_cascade_without_unmatched(base, rules.remove(j), tree, i);
    lemma_cascade_without_unmatched(base, swapped, tree, j);
    lemma_cascade_without_unmatched(base, swapped.remove(j), tree, i);
    assert(swapped.remove(j).remove(i) == rules.remove(j).remove(i));
}

impl StyleSheet {
    /// A copy whose rules match exactly as this sheet's rules do.
    pub fn copy(&self) -> (r: StyleSheet)
        ensures
            self.wf() ==> r.wf(),
            r.spec_base() == self.spec_base(),
            r.spec_rules().len() == self.spec_rules().len(),
            forall|i: int|
                0 <= i < self.spec_rules().len() ==> {
                    let (a, b) = (#[trigger] r.spec_rules()[i], self.spec_rules()[i]);
                    &&& a.1 == b.1
                    &&& a.0.spec_symbols() == b.0.spec_symbols()
                    &&& a.0.spec_loose().spec_states() == b.0.spec_loose().spec_states()
                    &&& a.0.spec_loose().spec_edges() == b.0.spec_loose().spec_edges()
                    &&& a.0.spec_loose().spec_start() == b.0.spec_loose().spec_start()
                    &&& a.0.spec_loose().spec_accepting() == b.0.spec_loose().spec_accepting()
                    &&& a.0.spec_exact().spec_states() == b.0.spec_exact().spec_states()
                    &&& a.0.spec_exact().spec_edges() == b.0.spec_exact().spec_edges()
                    &&& a.0.spec_exact().spec_start() == b.0.spec_exact().spec_start()
                    &&& a.0.spec_exact().spec_accepting() == b.0.spec_exact().spec_accepting()
                },
    {
        let mut rules: Vec<(Rule, RelativeStyle)> = Vec::new();
        let mut i: usize = 0;
        while i < self.rules.len()
            invariant
                i <= self.rules@.len(),
                rules@.len() == i,
                forall|m: int|
                    0 <= m < i ==> {
                        let (a, b) = (#[trigger] rules@[m], self.rules@[m]);
                        &&& a.1 == b.1
                        &&& a.0.spec_symbols() == b.0.spec_symbols()
                        &&& a.0.spec_loose().spec_states() == b.0.spec_loose().spec_states()
                        &&& a.0.spec_loose().spec_edges() == b.0.spec_loose().spec_edges()
                        &&& a.0.spec_loose().spec_start() == b.0.spec_loose().spec_start()
                        &&& a.0.spec_loose().spec_accepting() == b.0.spec_loose().spec_accepting()
                        &&& a.0.spec_exact().spec_states() == b.0.spec_exact().spec_states()
                        &&& a.0.spec_exact().spec_edges() == b.0.spec_exact().spec_edges()
                        &&& a.0.spec_exact().spec_start() == b.0.spec_exact().spec_start()
                        &&& a.0.spec_exact().spec_accepting() == b.0.spec_exact().spec_accepting()
                    },
            decreases self.rules@.len() - i,
        {
            rules.push((self.rules[i].0.copy(), self.rules[i].1.copy()));
            i += 1;
        }
        StyleSheet { base: self.base.copy(), rules }
    }

    /// Adds one rule for a compiled selector.
    fn push_symbols(&mut self, symbols: Vec<Language>, style: RelativeStyle)
        requires
            old(self).wf(),
            prefix_fits(style),
            1 <= symbols@.len() <= 4 * MAX_SELECTOR_LEN,
            symbols@[0] == Language::Begin,
        ensures
            final(self).wf(),
            final(self).spec_base() == old(self).spec_base(),
            final(self).spec_rules().len() == old(self).spec_rules().len() + 1,
            final(self).spec_rules().drop_last() == old(self).spec_rules(),
            final(self).spec_rules().last().0.spec_symbols() == symbols@,
            final(self).spec_rules().last().1 == style,
            final(self).spec_rules().last().0.wf(),
            forall|i: int| 0 <= i < old(self).spec_rules().len() ==> #[trigger] final(self).spec_rules()[i] == old(self).spec_rules()[i],
    {
        match Rule::from_symbols(&symbols) {
            Ok(rule) => {
                self.rules.push((rule, style));
                proof {
                    assert(self.rules@.drop_last() == old(self).spec_rules());
                    assert forall|i: int| 0 <= i < self.rules@.len() implies prefix_fits(#[trigger] self.rules@[i].1) by {
                        if i < old(self).spec_rules().len() {
                            assert(self.rules@[i] == old(self).spec_rules()[i]);
                        }
                    }
                }
            },
            Err(_) => {},
        }
    }

    /// The built-in stylesheet, one rule per selector:
    /// `*` gives every block a top margin of 60; `h1` is 3x3 and bold;
    /// `ul ul`, `ul ol`, `ol ol` and `ol ul` have no vertical margins; `li`
    /// has a top margin of 12 and is indented by 28, except right below an
    /// outermost list (`> ul > li`, `> ol > li`); `ul > li` is bulleted with
    /// `* `; `strong` is inline and bold; `em` is inline and underlined.
    pub fn defaults() -> (r: StyleSheet)
        ensures
            r.wf(),
            r.spec_base().display == Display::Block,
            r.spec_base().prefix@ == Seq::<char>::empty(),
            default_rules(r.spec_rules()),
    {
        let mut this = StyleSheet::new(Style::new());
        let ghost s0 = this.spec_rules();
        this.push_symbols(
            vec![Language::Begin, Language::Any, Language::KleenStar, Language::Any],
            RelativeStyle { margin_top: Some(60), ..RelativeStyle::new() },
        );
        let ghost s1 = this.spec_rules();
        this.push_symbols(
            any_depth(StyleTag::H1),
            RelativeStyle {
                font_width: Some(3),
                font_height: Some(3),
                bold: Some(true),
                ..RelativeStyle::new()
            },
        );
        let ghost s2 = this.spec_rules();
        this.push_symbols(nested(StyleTag::Ul, StyleTag::Ul), list_margins());
        let ghost s3 = this.spec_rules();
        this.push_symbols(nested(StyleTag::Ul, StyleTag::Ol), list_margins());
        let ghost s4 = this.spec_rules();
        this.push_symbols(nested(StyleTag::Ol, StyleTag::Ol), list_margins());
        let ghost s5 = this.spec_rules();
        this.push_symbols(nested(StyleTag::Ol, StyleTag::Ul), list_margins());
        let ghost s6 = this.spec_rules();
        this.push_symbols(
            any_depth(StyleTag::Li),
            RelativeStyle { margin_top: Some(12), margin_left: Some(28), ..RelativeStyle::new() },
        );
        let ghost s7 = this.spec_rules();
        this.push_symbols(
            vec![Language::Begin, Language::Alphabet(StyleTag::Ul), Language::Alphabet(StyleTag::Li)],
            RelativeStyle { margin_left: Some(0), ..RelativeStyle::new() },
        );
        let ghost s8 = this.spec_rules();
        this.push_symbols(
            vec![Language::Begin, Language::Alphabet(StyleTag::Ol), Language::Alphabet(StyleTag::Li)],
            RelativeStyle { margin_left: Some(0), ..RelativeStyle::new() },
        );
        let ghost s9 = this.spec_rules();
        let bullet = "* ".to_owned();
        proof {
            reveal_strlit("* ");
        }
        this.push_symbols(
            vec![
                Language::Begin,
                Language::Any,
                Language::KleenStar,
                Language::Alphabet(StyleTag::Ul),
                Language::Alphabet(StyleTag::Li),
            ],
            RelativeStyle { prefix: Some(bullet), ..RelativeStyle::new() },
        );
        let ghost s10 = this.spec_rules();
        this.push_symbols(
            any_depth(StyleTag::Strong),
            RelativeStyle {
                display: Some(Display::Inline),
                bold: Some(true),
                ..RelativeStyle::new()
            },
        );
        let ghost s11 = this.spec_rules();
        this.push_symbols(
            any_depth(StyleTag::Em),
            RelativeStyle {
                display: Some(Display::Inline),
                underline: Some(UnderlineThickness::OneDot),
                ..RelativeStyle::new()
            },
        );
        proof {
            let f = this.spec_rules();
            assert(s0.len() == 0);
            assert(f[11] == f.last());
            assert(f[10] == s11.last());
            assert(f[9] == s10.last());
            assert(f[8] == s9.last());
            assert(f[7] == s8.last());
            assert(f[6] == s7.last());
            assert(f[5] == s6.last());
            assert(f[4] == s5.last());
            assert(f[3] == s4.last());
            assert(f[2] == s3.last());
            assert(f[1] == s2.last());
            assert(f[0] == s1.last());
            assert forall|i: int| 0 <= i < f.len() implies (#[trigger] f[i]).0.wf() by {
                if i == 0 { assert(f[0] == s1.last()); }
                else if i == 1 { assert(f[1] == s2.last()); }
                else if i == 2 { assert(f[2] == s3.last()); }
                else if i == 3 { assert(f[3] == s4.last()); }
                else if i == 4 { assert(f[4] == s5.last()); }
                else if i == 5 { assert(f[5] == s6.last()); }
                else if i == 6 { assert(f[6] == s7.last()); }
                else if i == 7 { assert(f[7] == s8.last()); }
                else if i == 8 { assert(f[8] == s9.last()); }
                else if i == 9 { assert(f[9] == s10.last()); }
                else if i == 10 { assert(f[10] == s11.last()); }
            }
            let e = RelativeStyle::spec_empty();
            assert(rule_is(f, 0, seq![Language::Begin, Language::Any, Language::KleenStar, Language::Any], RelativeStyle { margin_top: Some(60), ..e }));
            assert(rule_is(f, 1, any_depth_symbols(StyleTag::H1), RelativeStyle { font_width: Some(3), font_height: Some(3), bold: Some(true), ..e }));
            assert(rule_is(f, 2, nested_symbols(StyleTag::Ul, StyleTag::Ul), RelativeStyle { margin_top: Some(0), margin_bottom: Some(0), ..e }));
            assert(rule_is(f, 7, seq![Language::Begin, Language::Alphabet(StyleTag::Ul), Language::Alphabet(StyleTag::Li)], RelativeStyle { margin_left: Some(0), ..e }));
            assert(f[9].1.prefix->Some_0@ == seq!['*', ' ']);
            assert((RelativeStyle { prefix: None, ..f[9].1 }) == e);
        }
        this
    }
}

/// The patch of nested lists: no vertical margins.
fn list_margins() -> (r: RelativeStyle)
    ensures
        r == (RelativeStyle { margin_top: Some(0), margin_bottom: Some(0), ..RelativeStyle::spec_empty() }),
{
    RelativeStyle { margin_top: Some(0), margin_bottom: Some(0), ..RelativeStyle::new() }
}

pub open spec fn any_depth_symbols(t: StyleTag) -> Seq<Language> {
    seq![Language::Begin, Language::Any, Language::KleenStar, Language::Alphabet(t)]
}

pub open spec fn nested_symbols(a: StyleTag, b: StyleTag) -> Seq<Language> {
    seq![
        Language::Begin,
        Language::Any,
        Language::KleenStar,
        Language::Alphabet(a),
        Language::Any,
        Language::KleenStar,
        Language::Alphabet(b),
    ]
}

/// Rule `i` of `rules` compiles `symbols` and carries `patch`.
pub open spec fn rule_is(rules: Seq<(Rule, RelativeStyle)>, i: int, symbols: Seq<Language>, patch: RelativeStyle) -> bool {
    rules[i].0.spec_symbols() == symbols && rules[i].1 == patch
}

/// The twelve rules of the built-in stylesheet, in order.
pub open spec fn default_rules(rules: Seq<(Rule, RelativeStyle)>) -> bool {
    let e = RelativeStyle::spec_empty();
    &&& rules.len() == 12
    &&& forall|i: int| 0 <= i < rules.len() ==> (#[trigger] rules[i]).0.wf()
    &&& rule_is(rules, 0, seq![Language::Begin, Language::Any, Language::KleenStar, Language::Any], RelativeStyle { margin_top: Some(60), ..e })
    &&& rule_is(rules, 1, any_depth_symbols(StyleTag::H1), RelativeStyle { font_width: Some(3), font_height: Some(3), bold: Some(true), ..e })
    &&& rule_is(rules, 2, nested_symbols(StyleTag::Ul, StyleTag::Ul), RelativeStyle { margin_top: Some(0), margin_bottom: Some(0), ..e })
    &&& rule_is(rules, 3, nested_symbols(StyleTag::Ul, StyleTag::Ol), RelativeStyle { margin_top: Some(0), margin_bottom: Some(0), ..e })
    &&& rule_is(rules, 4, nested_symbols(StyleTag::Ol, StyleTag::Ol), RelativeStyle { margin_top: Some(0), margin_bottom: Some(0), ..e })
    &&& rule_is(rules, 5, nested_symbols(StyleTag::Ol, StyleTag::Ul), RelativeStyle { margin_top: Some(0), margin_bottom: Some(0), ..e })
    &&& rule_is(rules, 6, any_depth_symbols(StyleTag::Li), RelativeStyle { margin_top: Some(12), margin_left: Some(28), ..e })
    &&& rule_is(rules, 7, seq![Language::Begin, Language::Alphabet(StyleTag::Ul), Language::Alphabet(StyleTag::Li)], RelativeStyle { margin_left: Some(0), ..e })
    &&& rule_is(rules, 8, seq![Language::Begin, Language::Alphabet(StyleTag::Ol), Language::Alphabet(StyleTag::Li)], RelativeStyle { margin_left: Some(0), ..e })
    &&& rules[9].0.spec_symbols() == seq![Language::Begin, Language::Any, Language::KleenStar, Language::Alphabet(StyleTag::Ul), Language::Alphabet(StyleTag::Li)]
    &&& rules[9].1.prefix is Some && rules[9].1.prefix->Some_0@ == seq!['*', ' ']
    &&& (RelativeStyle { prefix: None, ..rules[9].1 }) == e
    &&& rule_is(rules, 10, any_depth_symbols(StyleTag::Strong), RelativeStyle { display: Some(Display::Inline), bold: Some(true), ..e })
    &&& rule_is(rules, 11, any_depth_symbols(StyleTag::Em), RelativeStyle { display: Some(Display::Inline), underline: Some(UnderlineThickness::OneDot), ..e })
}

/// The symbols of a one-tag selector such as `em`.
fn any_depth(t: StyleTag) -> (r: Vec<Language>)
    ensures
        r@ == seq![Language::Begin, Language::Any, Language::KleenStar, Language::Alphabet(t)],
{
    vec![Language::Begin, Language::Any, Language::KleenStar, Language::Alphabet(t)]
}

/// The symbols of a descendant selector such as `ul ol`.
fn nested(a: StyleTag, b: StyleTag) -> (r: Vec<Language>)
    ensures
        r@ == seq![
            Language::Begin,
            Language::Any,
            Language::KleenStar,
            Language::Alphabet(a),
            Language::Any,
            Language::KleenStar,
            Language::Alphabet(b),
        ],
{
    vec![
        Language::Begin,
        Language::Any,
        Language::KleenStar,
        Language::Alphabet(a),
        Language::Any,
        Language::KleenStar,
        Language::Alphabet(b),
    ]
}

impl Default for StyleSheet {
    fn default() -> (r: StyleSheet)
        ensures
            r.wf(),
            r.spec_base().display == Display::Block,
            r.spec_base().prefix@ == Seq::<char>::empty(),
    {
        StyleSheet::defaults()
    }
}

/// The commands that set the font fields of `style`.
pub open spec fn font_commands(style: Style) -> Seq<Command> {
    seq![
        Command::Bold(style.bold),
        Command::CharSize(style.char_magnification),
        Command::CharSpacing(style.char_spacing as u8),
        Command::Font(style.font),
        match style.line_spacing {
            Some(n) => Command::LineSpacing(n as u8),
            None => Command::DefaultLineSpacing,
        },
        Command::SplitWords(style.split_words),
        Command::Underline(style.underline),
        Command::WhiteBlackReverse(style.white_black_reverse),
    ]
}

/// Spacings of a style that fit a byte.
pub open spec fn spacings_fit(style: Style) -> bool {
    &&& style.char_spacing <= 255
    &&& match style.line_spacing {
        Some(n) => n <= 255,
        None => true,
    }
}

/// The left margin after indenting `m` by `d`, held at the largest margin.
pub open spec fn indented(m: u16, d: usize) -> u16 {
    if m + d > 0xFFFF {
        0xFFFF
    } else {
        (m + d) as u16
    }
}

/// The left margin after taking `d` back from `m`, held at zero.
pub open spec fn outdented(m: u16, d: usize) -> u16 {
    if m < d {
        0
    } else {
        (m - d) as u16
    }
}

/// The commands that open a block of `style` on a printer with left margin `m`.
pub open spec fn block_open_commands(style: Style, m: u16) -> Seq<Command> {
    seq![Command::Justification(style.justification)] + feed_paper_commands(style.margin_top as nat)
        + if style.margin_left != 0 {
        seq![Command::LeftMargin(indented(m, style.margin_left))]
    } else {
        seq![]
    }
}

/// The bytes that opening a block of `style` sends: nothing inline; for a
/// block its commands, then its prefix printed as text.
pub open spec fn block_open_bytes(cfg: PrinterConfig, st: PrinterState, style: Style) -> Seq<u8> {
    if style.display == Display::Inline {
        seq![]
    } else {
        let cmds = block_open_commands(style, st.left_margin);
        let mid = st.after_all(cmds);
        commands_bytes(cmds) + if style.prefix@.len() == 0 {
            Seq::<u8>::empty()
        } else {
            printed_bytes_at(cfg, mid, cp437_of(style.prefix@)->Some_0)
        }
    }
}

/// The printer state after opening a block of `style`.
pub open spec fn block_open_state(cfg: PrinterConfig, st: PrinterState, style: Style) -> PrinterState {
    if style.display == Display::Inline {
        st
    } else {
        let mid = st.after_all(block_open_commands(style, st.left_margin));
        if style.prefix@.len() == 0 {
            mid
        } else {
            PrinterState {
                left_offset: printed_offset_at(cfg, mid, cp437_of(style.prefix@)->Some_0) as usize,
                ..mid
            }
        }
    }
}

/// Opening a block of `style` fails on its own: its prefix has a character
/// outside code page 437.
pub open spec fn block_open_fails(style: Style) -> bool {
    style.display == Display::Block && style.prefix@.len() > 0 && cp437_of(style.prefix@) is None
}

/// The commands that close a block of `style` on a printer with left margin `m`.
pub open spec fn block_close_commands(style: Style, m: u16) -> Seq<Command> {
    feed_paper_commands(style.margin_bottom as nat) + if style.margin_left != 0 {
        seq![Command::LeftMargin(outdented(m, style.margin_left))]
    } else {
        seq![]
    }
}

fn feed_paper_vec(units: usize, cmds: &mut Vec<Command>)
    ensures
        final(cmds)@ == old(cmds)@ + feed_paper_commands(units as nat),
{
    let ghost c0 = cmds@;
    let mut left: usize = units;
    while left > 255
        invariant
            cmds@ + feed_paper_commands(left as nat) == c0 + feed_paper_commands(units as nat),
        decreases left,
    {
        proof {
            lemma_feed_paper_commands_unfold(left as nat);
        }
        cmds.push(Command::FeedPaper(255));
        left = left - 255;
    }
    proof {
        lemma_feed_paper_commands_unfold(left as nat);
    }
    cmds.push(Command::FeedPaper(left as u8));
}

proof fn lemma_feed_paper_commands_unfold(n: nat)
    ensures
        n > 255 ==> feed_paper_commands(n) == seq![Command::FeedPaper(255)] + feed_paper_commands((n - 255) as nat),
        n <= 255 ==> feed_paper_commands(n) == seq![Command::FeedPaper(n as u8)],
{
    reveal_with_fuel(crate::printer::feed_params, 2);
    if n > 255 {
        assert(feed_paper_commands(n) =~= seq![Command::FeedPaper(255)] + feed_paper_commands((n - 255) as nat));
    } else {
        assert(feed_paper_commands(n) =~= seq![Command::FeedPaper(n as u8)]);
    }
}

impl<D: PrinterDevice> Printer<D> {
    /// Sets the font fields of `style` on the printer; a spacing above 255 is refused.
    pub fn font_style(&mut self, style: &Style) -> (r: Result<(), Error>)
        requires
            old(self).wf(),
        ensures
            final(self).wf(),
            final(self).spec_config() == old(self).spec_config(),
            !spacings_fit(*style) ==> r == Err::<(), Error>(Error::InvalidSpacingParam) && *final(self)
                == *old(self),
            spacings_fit(*style) && r is Ok ==> final(self).spec_written() == old(self).spec_written()
                + commands_bytes(font_commands(*style)),
            spacings_fit(*style) && r is Ok ==> final(self).spec_state() == old(self).spec_state().after_all(
                font_commands(*style),
            ),
            spacings_fit(*style) && r is Err ==> r->Err_0 == Error::Io,
    {
        if style.char_spacing > 255 {
            return Err(Error::InvalidSpacingParam);
        }
        let line = match style.line_spacing {
            Some(n) => {
                if n > 255 {
                    return Err(Error::InvalidSpacingParam);
                }
                Command::LineSpacing(n as u8)
            },
            None => Command::DefaultLineSpacing,
        };
        let cmds = vec![
            Command::Bold(style.bold),
            Command::CharSize(style.char_magnification),
            Command::CharSpacing(style.char_spacing as u8),
            Command::Font(style.font),
            line,
            Command::SplitWords(style.split_words),
            Command::Underline(style.underline),
            Command::WhiteBlackReverse(style.white_black_reverse),
        ];
        assert(cmds@ == font_commands(*style));
        self.commands(&cmds)
    }

    /// Opens a block: nothing for inline display; for block display the
    /// justification, the top margin, the indent when there is one, then the
    /// prefix as text.
    pub fn begin_block_style(&mut self, style: &Style) -> (r: Result<(), Error>)
        requires
            old(self).wf(),
            style.prefix@.len() <= MAX_TEXT_LEN,
        ensures
            final(self).wf(),
            final(self).spec_config() == old(self).spec_config(),
            style.display == Display::Inline ==> r is Ok && *final(self) == *old(self),
            r is Ok ==> final(self).spec_written() == old(self).spec_written() + block_open_bytes(
                old(self).spec_config(),
                old(self).spec_state(),
                *style,
            ),
            r is Ok ==> final(self).spec_state() == block_open_state(
                old(self).spec_config(),
                old(self).spec_state(),
                *style,
            ),
            block_open_fails(*style) ==> r is Err,
            r is Err ==> r->Err_0 == Error::Io || (block_open_fails(*style) && r->Err_0 == Error::Cp437),
    {
        if let Display::Inline = style.display {
            proof {
                assert(old(self).spec_written() + Seq::<u8>::empty() == old(self).spec_written());
            }
            return Ok(());
        }
        let mut cmds: Vec<Command> = vec![Command::Justification(style.justification)];
        feed_paper_vec(style.margin_top, &mut cmds);
        if style.margin_left != 0 {
            let m = self.state().left_margin;
            let wanted: u16 = if style.margin_left > 0xFFFF || m as usize + style.margin_left > 0xFFFF {
                0xFFFF
            } else {
                (m as usize + style.margin_left) as u16
            };
            cmds.push(Command::LeftMargin(wanted));
        }
        assert(cmds@ =~= block_open_commands(*style, old(self).spec_state().left_margin));
        self.commands(&cmds)?;
        if !style.prefix.as_str().is_empty() {
            self.print(style.prefix.as_str())?;
        } else {
            proof {
                assert(self.spec_written() + Seq::<u8>::empty() == self.spec_written());
            }
        }
        Ok(())
    }

    /// Closes a block: nothing for inline display; for block display the
    /// bottom margin, then the indent taken back when there is one.
    pub fn end_block_style(&mut self, style: &Style) -> (r: Result<(), Error>)
        requires
            old(self).wf(),
        ensures
            final(self).wf(),
            final(self).spec_config() == old(self).spec_config(),
            style.display == Display::Inline ==> r is Ok && *final(self) == *old(self),
            style.display == Display::Block && r is Ok ==> final(self).spec_written()
                == old(self).spec_written() + commands_bytes(
                block_close_commands(*style, old(self).spec_state().left_margin),
            ),
            style.display == Display::Block && r is Ok ==> final(self).spec_state()
                == old(self).spec_state().after_all(
                block_close_commands(*style, old(self).spec_state().left_margin),
            ),
            r is Err ==> r->Err_0 == Error::Io,
    {
        if let Display::Inline = style.display {
            return Ok(());
        }
        let mut cmds: Vec<Command> = Vec::new();
        feed_paper_vec(style.margin_bottom, &mut cmds);
        if style.margin_left != 0 {
            let m = self.state().left_margin;
            let wanted: u16 = if (m as usize) < style.margin_left {
                0
            } else {
                (m as usize - style.margin_left) as u16
            };
            cmds.push(Command::LeftMargin(wanted));
        }
        assert(cmds@ =~= block_close_commands(*style, old(self).spec_state().left_margin));
        self.commands(&cmds)
    }
}

} // verus!
