//! Marks, HTML phrasing and the style decisions of a painted text run.

use vstd::prelude::*;

use crate::ascii::STAR;

verus! {

/// An RGB color taken from a CSS declaration.
#[derive(Debug, Clone, Copy, PartialEq, Eq, Structural)]
pub struct CssColor {
    pub red: u8,
    pub green: u8,
    pub blue: u8,
}

/// Inline marks of a document node.
#[derive(Debug, Clone, Copy, PartialEq, Eq, Structural)]
pub struct MarkSet {
    pub bold: bool,
    pub italic: bool,
    pub strike: bool,
    pub code: bool,
    pub highlight: bool,
    pub sup: bool,
    pub sub: bool,
}

impl MarkSet {
    /// No mark at all.
    pub open spec fn none() -> MarkSet {
        MarkSet {
            bold: false,
            italic: false,
            strike: false,
            code: false,
            highlight: false,
            sup: false,
            sub: false,
        }
    }

    /// The marks of either set.
    pub open spec fn union(self, other: MarkSet) -> MarkSet {
        MarkSet {
            bold: self.bold || other.bold,
            italic: self.italic || other.italic,
            strike: self.strike || other.strike,
            code: self.code || other.code,
            highlight: self.highlight || other.highlight,
            sup: self.sup || other.sup,
            sub: self.sub || other.sub,
        }
    }

    /// The empty set.
    pub fn empty() -> (marks: MarkSet)
        ensures
            marks == MarkSet::none(),
    {
        MarkSet {
            bold: false,
            italic: false,
            strike: false,
            code: false,
            highlight: false,
            sup: false,
            sub: false,
        }
    }

    /// Whether the set holds no mark.
    pub fn is_empty(&self) -> (empty: bool)
        ensures
            empty == (*self == MarkSet::none()),
    {
        !(self.bold || self.italic || self.strike || self.code || self.highlight || self.sup
            || self.sub)
    }

    /// This set together with `other`.
    pub fn with(self, other: MarkSet) -> (marks: MarkSet)
        ensures
            marks == self.union(other),
    {
        MarkSet {
            bold: self.bold || other.bold,
            italic: self.italic || other.italic,
            strike: self.strike || other.strike,
            code: self.code || other.code,
            highlight: self.highlight || other.highlight,
            sup: self.sup || other.sup,
            sub: self.sub || other.sub,
        }
    }
}

/// How the marks of a node are written in source: delimiter bytes, code-span
/// tick count, and the group that ties the runs of one marked span together
/// (`0` when the node stands alone).
#[derive(Debug, Clone, Copy, PartialEq, Eq, Structural)]
pub struct MarkFidelity {
    pub code_backticks: usize,
    pub emph_delim: u8,
    pub strong_delim: u8,
    pub highlight_group: u64,
    pub sup_group: u64,
    pub sub_group: u64,
    pub emph_group: u64,
    pub strike_group: u64,
    pub strong_group: u64,
}

impl MarkFidelity {
    /// Asterisk emphasis, single ticks and no groups.
    pub open spec fn plain() -> MarkFidelity {
        MarkFidelity {
            code_backticks: 1,
            emph_delim: STAR,
            strong_delim: STAR,
            highlight_group: 0,
            sup_group: 0,
            sub_group: 0,
            emph_group: 0,
            strike_group: 0,
            strong_group: 0,
        }
    }
}

impl Default for MarkFidelity {
    fn default() -> (fidelity: Self)
        ensures
            fidelity == MarkFidelity::plain(),
    {
        MarkFidelity {
            code_backticks: 1,
            emph_delim: STAR,
            strong_delim: STAR,
            highlight_group: 0,
            sup_group: 0,
            sub_group: 0,
            emph_group: 0,
            strike_group: 0,
            strong_group: 0,
        }
    }
}

/// Phrasing that the HTML tags around a node give it.
#[derive(Debug, PartialEq, Eq)]
pub struct HtmlPaint {
    pub bold: bool,
    pub italic: bool,
    pub strike: bool,
    pub code: bool,
    pub mark: bool,
    pub underline: bool,
    pub sup: bool,
    pub sub: bool,
    pub color: Option<CssColor>,
    pub background: Option<CssColor>,
    pub href: Option<String>,
}

/// What [`HtmlPaint`] says, with the link target as a character sequence.
pub struct HtmlPaintView {
    pub bold: bool,
    pub italic: bool,
    pub strike: bool,
    pub code: bool,
    pub mark: bool,
    pub underline: bool,
    pub sup: bool,
    pub sub: bool,
    pub color: Option<CssColor>,
    pub background: Option<CssColor>,
    pub href: Option<Seq<char>>,
}

impl View for HtmlPaint {
    type V = HtmlPaintView;

    open spec fn view(&self) -> HtmlPaintView {
        HtmlPaintView {
            bold: self.bold,
            italic: self.italic,
            strike: self.strike,
            code: self.code,
            mark: self.mark,
            underline: self.underline,
            sup: self.sup,
            sub: self.sub,
            color: self.color,
            background: self.background,
            href: match self.href {
                Some(url) => Some(url@),
                None => None,
            },
        }
    }
}

impl HtmlPaintView {
    /// No phrasing.
    pub open spec fn none() -> HtmlPaintView {
        HtmlPaintView {
            bold: false,
            italic: false,
            strike: false,
            code: false,
            mark: false,
            underline: false,
            sup: false,
            sub: false,
            color: None,
            background: None,
            href: None,
        }
    }

    /// This phrasing with the highlight, superscript and subscript of `marks`.
    pub open spec fn merged(self, marks: MarkSet) -> HtmlPaintView {
        HtmlPaintView {
            mark: self.mark || marks.highlight,
            sup: self.sup || marks.sup,
            sub: self.sub || marks.sub,
            ..self
        }
    }
}

impl Clone for HtmlPaint {
    fn clone(&self) -> (copy: Self)
        ensures
            copy == *self,
    {
        HtmlPaint {
            bold: self.bold,
            italic: self.italic,
            strike: self.strike,
            code: self.code,
            mark: self.mark,
            underline: self.underline,
            sup: self.sup,
            sub: self.sub,
            color: self.color,
            background: self.background,
            href: match &self.href {
                Some(url) => Some(url.clone()),
                None => None,
            },
        }
    }
}

impl Default for HtmlPaint {
    fn default() -> (paint: Self)
        ensures
            paint@ == HtmlPaintView::none(),
    {
        HtmlPaint {
            bold: false,
            italic: false,
            strike: false,
            code: false,
            mark: false,
            underline: false,
            sup: false,
            sub: false,
            color: None,
            background: None,
            href: None,
        }
    }
}

/// Adds the marks that HTML phrasing can express to `html`.
pub fn merge_html_paint(marks: MarkSet, html: &HtmlPaint) -> (paint: HtmlPaint)
    ensures
        paint@ == html@.merged(marks),
{
    let mut paint = html.clone();
    if marks.highlight {
        paint.mark = true;
    }
    if marks.sup {
        paint.sup = true;
    }
    if marks.sub {
        paint.sub = true;
    }
    paint
}

/// The part of a block's text style that run styling depends on.
#[derive(Debug, Clone, Copy, PartialEq, Eq, Structural)]
pub struct TextStyle {
    /// The style underlines its text by itself.
    pub underlined: bool,
}

/// Font weight of a run.
#[derive(Debug, Clone, Copy, PartialEq, Eq, Structural)]
pub enum RunWeight {
    /// The weight of the text style.
    Inherit,
    /// The weight of the block (bold in a heading).
    Block,
    /// Bold.
    Bold,
}

/// Text color of a run.
#[derive(Debug, Clone, Copy, PartialEq, Eq, Structural)]
pub enum RunColor {
    /// The color of the text style.
    Inherit,
    Link,
    Delimiter,
    Secondary,
    /// One of the theme's syntax colors.
    Syntax(u32),
    Css(CssColor),
}

/// Background of a run.
#[derive(Debug, Clone, Copy, PartialEq, Eq, Structural)]
pub enum RunBackground {
    /// The background of the text style.
    Inherit,
    /// No background.
    Clear,
    /// The code-span background.
    Code,
    /// The highlighter background.
    Highlight,
    Css(CssColor),
}

/// Underline of a run.
#[derive(Debug, Clone, Copy, PartialEq, Eq, Structural)]
pub enum RunUnderline {
    /// The underline of the text style.
    Inherit,
    /// No underline.
    Clear,
    /// In the text color of the theme.
    Text,
    /// In the link color of the theme.
    Link,
    Css(CssColor),
}

/// Style of one painted run, as decisions that the theme turns into fonts and
/// colors.
#[derive(Debug, Clone, Copy, PartialEq, Eq, Structural)]
pub struct RunStyle {
    pub weight: RunWeight,
    pub italic: bool,
    pub strike: bool,
    pub code_font: bool,
    pub color: RunColor,
    pub background: RunBackground,
    pub underline: RunUnderline,
}

impl RunStyle {
    /// Every property comes from the text style.
    pub open spec fn inherit() -> RunStyle {
        RunStyle {
            weight: RunWeight::Inherit,
            italic: false,
            strike: false,
            code_font: false,
            color: RunColor::Inherit,
            background: RunBackground::Inherit,
            underline: RunUnderline::Inherit,
        }
    }

    /// Delimiter bytes (`**`, `[`, `#`, …).
    pub open spec fn delim() -> RunStyle {
        RunStyle { color: RunColor::Delimiter, ..RunStyle::inherit() }
    }

    /// The `$` / `$$` around a formula.
    pub open spec fn math_delim() -> RunStyle {
        RunStyle { color: RunColor::Delimiter, code_font: true, ..RunStyle::inherit() }
    }

    /// Unrecognised inline HTML.
    pub open spec fn raw_html() -> RunStyle {
        RunStyle { color: RunColor::Secondary, code_font: true, ..RunStyle::inherit() }
    }

    /// Code-block text.
    pub open spec fn code() -> RunStyle {
        RunStyle { code_font: true, ..RunStyle::inherit() }
    }

    /// Style of a text run under `marks` and `paint`. Code wins over an HTML
    /// background, which wins over a highlight; a CSS color wins over the link
    /// color, and recolors an underline that is not a link's.
    pub open spec fn styled(
        base: TextStyle,
        marks: MarkSet,
        md_link: bool,
        paint: HtmlPaintView,
    ) -> RunStyle {
        let link = md_link || paint.href is Some;
        RunStyle {
            weight: if paint.bold || marks.bold {
                RunWeight::Bold
            } else {
                RunWeight::Block
            },
            italic: paint.italic || marks.italic,
            strike: paint.strike || marks.strike,
            code_font: paint.code || marks.code,
            color: match paint.color {
                Some(c) => RunColor::Css(c),
                None => if link {
                    RunColor::Link
                } else {
                    RunColor::Inherit
                },
            },
            background: if paint.code || marks.code {
                RunBackground::Code
            } else if paint.background is Some {
                RunBackground::Css(paint.background->0)
            } else if paint.mark || marks.highlight {
                RunBackground::Highlight
            } else {
                RunBackground::Inherit
            },
            underline: if link {
                RunUnderline::Link
            } else if paint.underline || base.underlined {
                match paint.color {
                    Some(c) => RunUnderline::Css(c),
                    None => if paint.underline {
                        RunUnderline::Text
                    } else {
                        RunUnderline::Inherit
                    },
                }
            } else {
                RunUnderline::Inherit
            },
        }
    }

    /// Style of a formula: italic code font, and a background only where a
    /// highlight or code mark gives one.
    pub open spec fn math(base: TextStyle, marks: MarkSet, paint: HtmlPaintView) -> RunStyle {
        let run = RunStyle::styled(base, marks, false, paint);
        RunStyle {
            code_font: true,
            italic: true,
            background: if paint.mark || marks.highlight || paint.code || marks.code {
                run.background
            } else {
                RunBackground::Clear
            },
            ..run
        }
    }
}

/// A run that takes everything from the text style.
pub fn plain_run() -> (run: RunStyle)
    ensures
        run == RunStyle::inherit(),
{
    RunStyle {
        weight: RunWeight::Inherit,
        italic: false,
        strike: false,
        code_font: false,
        color: RunColor::Inherit,
        background: RunBackground::Inherit,
        underline: RunUnderline::Inherit,
    }
}

/// Style of delimiter bytes.
pub fn wiki_delim_run() -> (run: RunStyle)
    ensures
        run == RunStyle::delim(),
{
    let mut run = plain_run();
    run.color = RunColor::Delimiter;
    run
}

/// Style of the `$` / `$$` around a formula.
pub fn math_delim_run() -> (run: RunStyle)
    ensures
        run == RunStyle::math_delim(),
{
    let mut run = plain_run();
    run.code_font = true;
    run.color = RunColor::Delimiter;
    run
}

/// Style of unrecognised inline HTML.
pub fn raw_html_run() -> (run: RunStyle)
    ensures
        run == RunStyle::raw_html(),
{
    let mut run = plain_run();
    run.color = RunColor::Secondary;
    run.code_font = true;
    run
}

/// Style of code-block text.
pub fn code_run() -> (run: RunStyle)
    ensures
        run == RunStyle::code(),
{
    let mut run = plain_run();
    run.code_font = true;
    run
}

/// Style of a text run under `marks` and `paint`.
pub fn style_run(base: TextStyle, marks: MarkSet, md_link: bool, paint: &HtmlPaint) -> (run:
    RunStyle)
    ensures
        run == RunStyle::styled(base, marks, md_link, paint@),
{
    let mut run = plain_run();
    let code = paint.code || marks.code;
    let link = md_link || paint.href.is_some();
    run.weight = if paint.bold || marks.bold {
        RunWeight::Bold
    } else {
        RunWeight::Block
    };
    run.italic = paint.italic || marks.italic;
    // The strike-through inherits the run color, so that it stays on the
    // glyph for links and emphasis too.
    run.strike = paint.strike || marks.strike;
    if code {
        run.code_font = true;
        run.background = RunBackground::Code;
    } else if let Some(bg) = paint.background {
        run.background = RunBackground::Css(bg);
    } else if paint.mark || marks.highlight {
        run.background = RunBackground::Highlight;
    }
    if paint.underline {
        run.underline = match paint.color {
            Some(c) => RunUnderline::Css(c),
            None => RunUnderline::Text,
        };
    }
    if link {
        run.color = RunColor::Link;
        run.underline = RunUnderline::Link;
    }
    if let Some(c) = paint.color {
        run.color = RunColor::Css(c);
        if (paint.underline || base.underlined) && !link {
            run.underline = RunUnderline::Css(c);
        }
    }
    run
}

/// Style of a formula under `marks` and `paint`.
pub fn math_style_run(base: TextStyle, marks: MarkSet, paint: &HtmlPaint) -> (run: RunStyle)
    ensures
        run == RunStyle::math(base, marks, paint@),
{
    let mut run = style_run(base, marks, false, paint);
    run.code_font = true;
    run.italic = true;
    if !(paint.mark || marks.highlight || paint.code || marks.code) {
        run.background = RunBackground::Clear;
    }
    run
}

/// A CSS color always decides the text color, links included.
pub proof fn css_color_wins(base: TextStyle, marks: MarkSet, md_link: bool, paint: HtmlPaintView)
    requires
        paint.color is Some,
    ensures
        RunStyle::styled(base, marks, md_link, paint).color == RunColor::Css(paint.color->0),
{
}

/// A link keeps its underline whatever else is painted on it.
pub proof fn link_stays_underlined(base: TextStyle, marks: MarkSet, paint: HtmlPaintView)
    ensures
        RunStyle::styled(base, marks, true, paint).underline == RunUnderline::Link,
{
}

/// Each mark and each kind of phrasing decides its own property of a run and
/// no other: text is italic exactly where it is marked or phrased italic, and
/// so for bold, strike-through and the code font.
pub proof fn marks_show_as_themselves(
    base: TextStyle,
    marks: MarkSet,
    md_link: bool,
    paint: HtmlPaintView,
)
    ensures
        ({
            let run = RunStyle::styled(base, marks, md_link, paint);
            &&& run.italic <==> marks.italic || paint.italic
            &&& run.strike <==> marks.strike || paint.strike
            &&& run.code_font <==> marks.code || paint.code
            &&& run.weight == RunWeight::Bold <==> marks.bold || paint.bold
            &&& run.weight != RunWeight::Bold ==> run.weight == RunWeight::Block
        }),
{
}

/// Two runs that agree in one mark agree in what it paints, whatever else
/// tells them apart: their other marks, their links, their colors or the style
/// of their blocks.
pub proof fn marks_are_independent(
    base: TextStyle,
    marks: MarkSet,
    md_link: bool,
    paint: HtmlPaintView,
    other_base: TextStyle,
    other_marks: MarkSet,
    other_link: bool,
    other_paint: HtmlPaintView,
)
    ensures
        ({
            let a = RunStyle::styled(base, marks, md_link, paint);
            let b = RunStyle::styled(other_base, other_marks, other_link, other_paint);
            &&& marks.italic == other_marks.italic && paint.italic == other_paint.italic
                ==> a.italic == b.italic
            &&& marks.bold == other_marks.bold && paint.bold == other_paint.bold ==> a.weight
                == b.weight
            &&& marks.strike == other_marks.strike && paint.strike == other_paint.strike
                ==> a.strike == b.strike
            &&& marks.code == other_marks.code && paint.code == other_paint.code ==> a.code_font
                == b.code_font
            &&& md_link == other_link && paint.href is Some == other_paint.href is Some
                && paint.color == other_paint.color ==> a.color == b.color
        }),
{
}

/// The background of a run: that of code on code and nowhere else, a CSS color
/// where one is given to text that is no code, the highlighter on highlighted
/// text that has neither, and none otherwise.
pub proof fn background_has_one_reason(
    base: TextStyle,
    marks: MarkSet,
    md_link: bool,
    paint: HtmlPaintView,
)
    ensures
        ({
            let back = RunStyle::styled(base, marks, md_link, paint).background;
            let code = marks.code || paint.code;
            let high = marks.highlight || paint.mark;
            &&& back == RunBackground::Code <==> code
            &&& forall|c: CssColor|
                back == RunBackground::Css(c) <==> !code && paint.background == Some(c)
            &&& back == RunBackground::Highlight <==> !code && paint.background is None && high
            &&& back == RunBackground::Inherit <==> !code && paint.background is None && !high
        }),
{
}

/// The text color of a run: a CSS color where one is given, else that of links
/// on links, else that of the text.
pub proof fn color_has_one_reason(
    base: TextStyle,
    marks: MarkSet,
    md_link: bool,
    paint: HtmlPaintView,
)
    ensures
        ({
            let color = RunStyle::styled(base, marks, md_link, paint).color;
            let link = md_link || paint.href is Some;
            &&& forall|c: CssColor| color == RunColor::Css(c) <==> paint.color == Some(c)
            &&& color == RunColor::Link <==> paint.color is None && link
            &&& color == RunColor::Inherit <==> paint.color is None && !link
        }),
{
}

/// The underline of a run: that of links on links; elsewhere in the CSS color
/// of underlined text that has one, in the text color where the phrasing
/// underlines, and otherwise that of the block's own style.
pub proof fn underline_has_one_reason(
    base: TextStyle,
    marks: MarkSet,
    md_link: bool,
    paint: HtmlPaintView,
)
    ensures
        ({
            let line = RunStyle::styled(base, marks, md_link, paint).underline;
            let link = md_link || paint.href is Some;
            let lined = paint.underline || base.underlined;
            &&& line == RunUnderline::Link <==> link
            &&& forall|c: CssColor|
                line == RunUnderline::Css(c) <==> !link && lined && paint.color == Some(c)
            &&& line == RunUnderline::Text <==> !link && paint.underline && paint.color is None
            &&& line == RunUnderline::Inherit <==> !link && !(paint.underline || (base.underlined
                && paint.color is Some))
        }),
{
}

/// A formula is italic and in the code font whatever its marks. In weight,
/// strike-through, color and underline it is like text, and it has the
/// background of text under code or a highlight and none otherwise.
pub proof fn formulas_are_italic_code(base: TextStyle, marks: MarkSet, paint: HtmlPaintView)
    ensures
        ({
            let run = RunStyle::math(base, marks, paint);
            let text = RunStyle::styled(base, marks, false, paint);
            &&& run.italic && run.code_font
            &&& run.weight == text.weight && run.strike == text.strike
            &&& run.color == text.color && run.underline == text.underline
            &&& marks.code || paint.code || marks.highlight || paint.mark ==> run.background
                == text.background
            &&& !(marks.code || paint.code || marks.highlight || paint.mark) ==> run.background
                == RunBackground::Clear
        }),
{
}

/// Chrome is told apart by its color: delimiters are in the delimiter color,
/// raw HTML in the secondary color; formula delimiters, raw HTML and code are
/// in the code font. Nothing else of them differs from the text around.
pub proof fn chrome_styles()
    ensures
        ({
            let all = seq![
                RunStyle::inherit(),
                RunStyle::delim(),
                RunStyle::math_delim(),
                RunStyle::raw_html(),
                RunStyle::code(),
            ];
            &&& forall|i: int|
                0 <= i < 5 ==> {
                    let run = #[trigger] all[i];
                    &&& run.weight == RunWeight::Inherit && !run.italic && !run.strike
                    &&& run.background == RunBackground::Inherit
                    &&& run.underline == RunUnderline::Inherit
                    &&& run.code_font <==> i >= 2
                    &&& run.color == RunColor::Delimiter <==> i == 1 || i == 2
                    &&& run.color == RunColor::Secondary <==> i == 3
                    &&& run.color == RunColor::Inherit <==> i == 0 || i == 4
                }
        }),
{
}

/// Joining mark sets: a mark is in the union exactly when it is in one of the
/// two, and the empty set adds none.
pub proof fn union_holds_either(a: MarkSet, b: MarkSet)
    ensures
        ({
            let u = a.union(b);
            &&& u.bold <==> a.bold || b.bold
            &&& u.italic <==> a.italic || b.italic
            &&& u.strike <==> a.strike || b.strike
            &&& u.code <==> a.code || b.code
            &&& u.highlight <==> a.highlight || b.highlight
            &&& u.sup <==> a.sup || b.sup
            &&& u.sub <==> a.sub || b.sub
        }),
        a.union(b) == b.union(a),
        a.union(MarkSet::none()) == a,
{
}

/// Merging marks into phrasing adds highlight, superscript and subscript, and
/// leaves the rest of the phrasing as it is.
pub proof fn merging_adds_three_marks(paint: HtmlPaintView, marks: MarkSet)
    ensures
        ({
            let m = paint.merged(marks);
            &&& m.mark <==> paint.mark || marks.highlight
            &&& m.sup <==> paint.sup || marks.sup
            &&& m.sub <==> paint.sub || marks.sub
            &&& m.bold == paint.bold && m.italic == paint.italic && m.strike == paint.strike
            &&& m.code == paint.code && m.underline == paint.underline
            &&& m.color == paint.color && m.background == paint.background
            &&& m.href == paint.href
        }),
{
}

/// No marks are none of the marks, and plain phrasing asks for nothing.
pub proof fn nothing_is_marked_by_nothing()
    ensures
        ({
            let m = MarkSet::none();
            !m.bold && !m.italic && !m.strike && !m.code && !m.highlight && !m.sup && !m.sub
        }),
        ({
            let p = HtmlPaintView::none();
            &&& !p.bold && !p.italic && !p.strike && !p.code && !p.mark && !p.underline && !p.sup
                && !p.sub
            &&& p.color is None && p.background is None && p.href is None
        }),
{
}

} // verus!
