//! Style records and the SGR ("Select Graphic Rendition") resolver.
//!
//! A [`StyleNode`] is folded one parameter group at a time: the first value
//! of a group selects the rule and later values are read positionally, with
//! 0 standing in for an absent one.
use crate::text::push_char;
use vstd::prelude::*;
use vstd::string::*;

verus! {

/// One of the eight base colors of the terminal palette.
#[derive(Debug, Clone, Copy, PartialEq, Eq, Structural)]
pub enum EightBitColor {
    Black,
    Red,
    Green,
    Yellow,
    Blue,
    Magenta,
    Cyan,
    White,
}

/// The base color with index `n`; indices past 7 give black.
pub open spec fn eight_bit_color(n: int) -> EightBitColor {
    if n == 1 {
        EightBitColor::Red
    } else if n == 2 {
        EightBitColor::Green
    } else if n == 3 {
        EightBitColor::Yellow
    } else if n == 4 {
        EightBitColor::Blue
    } else if n == 5 {
        EightBitColor::Magenta
    } else if n == 6 {
        EightBitColor::Cyan
    } else if n == 7 {
        EightBitColor::White
    } else {
        EightBitColor::Black
    }
}

impl EightBitColor {
    pub fn from_u8(value: u8) -> (r: Self)
        ensures
            r == eight_bit_color(value as int),
    {
        match value {
            1 => EightBitColor::Red,
            2 => EightBitColor::Green,
            3 => EightBitColor::Yellow,
            4 => EightBitColor::Blue,
            5 => EightBitColor::Magenta,
            6 => EightBitColor::Cyan,
            7 => EightBitColor::White,
            _ => EightBitColor::Black,
        }
    }
}

#[derive(Debug, Clone, Copy, PartialEq, Eq, Structural)]
pub enum Color {
    /// Standard 8 colors (30-37, 40-47)
    Standard(EightBitColor),
    /// Bright variants of the standard colors (90-97, 100-107, or bold)
    Bright(EightBitColor),
    /// 256-color palette
    Palette(u8),
    /// True color RGB
    Rgb { r: u8, g: u8, b: u8 },
}

#[derive(Debug, Clone, Copy, PartialEq, Eq, Structural)]
pub enum UnderlineStyle {
    Single,
    Double,
    Curly,
    Dotted,
    Dashed,
}

#[derive(Debug, Clone, Copy, PartialEq, Eq, Structural)]
pub enum Font {
    One,
    Two,
    Three,
    Four,
    Five,
    Six,
    Seven,
    Eight,
    Nine,
}

/// The alternative font with number `n` (1 to 9); any other number selects
/// the default font.
pub open spec fn font_of(n: int) -> Option<Font> {
    if n == 1 {
        Some(Font::One)
    } else if n == 2 {
        Some(Font::Two)
    } else if n == 3 {
        Some(Font::Three)
    } else if n == 4 {
        Some(Font::Four)
    } else if n == 5 {
        Some(Font::Five)
    } else if n == 6 {
        Some(Font::Six)
    } else if n == 7 {
        Some(Font::Seven)
    } else if n == 8 {
        Some(Font::Eight)
    } else if n == 9 {
        Some(Font::Nine)
    } else {
        None
    }
}

impl Font {
    pub fn from_u8(value: u8) -> (r: Option<Self>)
        ensures
            r == font_of(value as int),
    {
        match value {
            1 => Some(Font::One),
            2 => Some(Font::Two),
            3 => Some(Font::Three),
            4 => Some(Font::Four),
            5 => Some(Font::Five),
            6 => Some(Font::Six),
            7 => Some(Font::Seven),
            8 => Some(Font::Eight),
            9 => Some(Font::Nine),
            _ => None,
        }
    }
}

/// The graphic rendition in effect at one point of the output.
#[derive(Debug, Clone, Copy, PartialEq, Eq, Structural)]
pub struct StyleNode {
    pub bold: bool,
    pub dim: bool,
    pub italic: bool,
    pub underline: Option<UnderlineStyle>,
    pub underline_color: Option<Color>,
    pub subscript: bool,
    pub superscript: bool,
    pub blink: bool,
    pub reverse: bool,
    pub hidden: bool,
    pub strikethrough: bool,
    pub rapid_blink: bool,
    pub font: Option<Font>,
    pub fraktur: bool,
    pub proportional_spacing: bool,
    pub framed: bool,
    pub encircled: bool,
    pub overlined: bool,
    pub foreground: Option<Color>,
    pub background: Option<Color>,
    /// The bright foreground came from a standard color promoted by bold.
    pub fg_bright_from_bold: bool,
    /// The bright background came from a standard color promoted by bold.
    pub bg_bright_from_bold: bool,
}

/// The style with every attribute off.
pub open spec fn plain_style() -> StyleNode {
    StyleNode {
        bold: false,
        dim: false,
        italic: false,
        underline: None,
        underline_color: None,
        subscript: false,
        superscript: false,
        blink: false,
        reverse: false,
        hidden: false,
        strikethrough: false,
        rapid_blink: false,
        font: None,
        fraktur: false,
        proportional_spacing: false,
        framed: false,
        encircled: false,
        overlined: false,
        foreground: None,
        background: None,
        fg_bright_from_bold: false,
        bg_bright_from_bold: false,
    }
}

impl Default for StyleNode {
    fn default() -> (r: Self)
        ensures
            r == plain_style(),
    {
        StyleNode {
            bold: false,
            dim: false,
            italic: false,
            underline: None,
            underline_color: None,
            subscript: false,
            superscript: false,
            blink: false,
            reverse: false,
            hidden: false,
            strikethrough: false,
            rapid_blink: false,
            font: None,
            fraktur: false,
            proportional_spacing: false,
            framed: false,
            encircled: false,
            overlined: false,
            foreground: None,
            background: None,
            fg_bright_from_bold: false,
            bg_bright_from_bold: false,
        }
    }
}

/// Value `i` of a parameter group, 0 where the group is shorter.
pub open spec fn sub_value(g: Seq<u16>, i: int) -> u16 {
    if 0 <= i < g.len() {
        g[i]
    } else {
        0
    }
}

/// A channel value limited to 0..=255.
pub open spec fn clamp_channel(v: u16) -> u8 {
    if v > 255 {
        255
    } else {
        v as u8
    }
}

/// The extended color that a `38`, `48` or `58` group selects: `n;5;P` a
/// palette entry, `n;2;R;G;B` a true color; any other form selects none.
pub open spec fn extended_color(g: Seq<u16>) -> Option<Color> {
    if sub_value(g, 1) == 5 {
        Some(Color::Palette(sub_value(g, 2) as u8))
    } else if sub_value(g, 1) == 2 {
        Some(
            Color::Rgb {
                r: clamp_channel(sub_value(g, 2)),
                g: clamp_channel(sub_value(g, 3)),
                b: clamp_channel(sub_value(g, 4)),
            },
        )
    } else {
        None
    }
}

/// The standard color promoted to its bright variant; other colors as they are.
pub open spec fn promoted(c: Option<Color>) -> Option<Color> {
    match c {
        Some(Color::Standard(n)) => Some(Color::Bright(n)),
        _ => c,
    }
}

/// A bright color demoted to its standard variant; other colors as they are.
pub open spec fn demoted(c: Option<Color>) -> Option<Color> {
    match c {
        Some(Color::Bright(n)) => Some(Color::Standard(n)),
        _ => c,
    }
}

pub open spec fn is_standard(c: Option<Color>) -> bool {
    c matches Some(Color::Standard(_))
}

pub open spec fn is_bright(c: Option<Color>) -> bool {
    c matches Some(Color::Bright(_))
}

/// The underline style that `4:n` selects; a bare `4` underlines once.
pub open spec fn underline_of(g: Seq<u16>) -> Option<UnderlineStyle> {
    let n = if g.len() < 2 { 1 } else { g[1] };
    if n == 0 {
        None
    } else if n == 2 {
        Some(UnderlineStyle::Double)
    } else if n == 3 {
        Some(UnderlineStyle::Curly)
    } else if n == 4 {
        Some(UnderlineStyle::Dotted)
    } else if n == 5 {
        Some(UnderlineStyle::Dashed)
    } else {
        Some(UnderlineStyle::Single)
    }
}

/// The leading values that select a rule; any other is ignored.
pub open spec fn is_known_code(c: u16) -> bool {
    c <= 9 || (10 <= c <= 29) || (30 <= c <= 49) || (50 <= c <= 55) || c == 58 || c == 59 || (
    73 <= c <= 75) || (90 <= c <= 97) || (100 <= c <= 107)
}

/// The effect of one parameter group on the style `s`.
#[verifier::opaque]
pub open spec fn apply_group(s: StyleNode, g: Seq<u16>) -> StyleNode {
    let code = sub_value(g, 0);
    if g.len() == 0 || !is_known_code(code) {
        s
    } else if code < 10 {
        basic_rule(s, g)
    } else if code < 30 {
        toggle_rule(s, code)
    } else if code < 50 {
        color_rule(s, g)
    } else {
        extra_rule(s, g)
    }
}

/// Codes 0 to 9: reset, and switching attributes on.
pub open spec fn basic_rule(s: StyleNode, g: Seq<u16>) -> StyleNode {
    let code = sub_value(g, 0);
    if code == 0 {
        plain_style()
    } else if code == 1 {
        StyleNode {
            bold: true,
            foreground: promoted(s.foreground),
            fg_bright_from_bold: if is_standard(s.foreground) {
                true
            } else {
                s.fg_bright_from_bold
            },
            background: promoted(s.background),
            bg_bright_from_bold: if is_standard(s.background) {
                true
            } else {
                s.bg_bright_from_bold
            },
            ..s
        }
    } else if code == 2 {
        StyleNode { dim: true, ..s }
    } else if code == 3 {
        StyleNode { italic: true, ..s }
    } else if code == 4 {
        StyleNode { underline: underline_of(g), ..s }
    } else if code == 5 {
        StyleNode { blink: true, ..s }
    } else if code == 6 {
        StyleNode { rapid_blink: true, ..s }
    } else if code == 7 {
        StyleNode { reverse: true, ..s }
    } else if code == 8 {
        StyleNode { hidden: true, ..s }
    } else {
        StyleNode { strikethrough: true, ..s }
    }
}

/// Codes 10 to 29: fonts, and switching attributes off.
pub open spec fn toggle_rule(s: StyleNode, code: u16) -> StyleNode {
    if code <= 19 {
        StyleNode { font: font_of(code - 10), ..s }
    } else if code == 20 {
        StyleNode { fraktur: true, ..s }
    } else if code == 21 || code == 22 {
        StyleNode {
            bold: false,
            dim: false,
            foreground: if s.fg_bright_from_bold {
                demoted(s.foreground)
            } else {
                s.foreground
            },
            fg_bright_from_bold: false,
            background: if s.bg_bright_from_bold {
                demoted(s.background)
            } else {
                s.background
            },
            bg_bright_from_bold: false,
            ..s
        }
    } else if code == 23 {
        StyleNode { italic: false, ..s }
    } else if code == 24 {
        StyleNode { underline: None, ..s }
    } else if code == 25 {
        StyleNode { blink: false, rapid_blink: false, ..s }
    } else if code == 26 {
        StyleNode { proportional_spacing: true, ..s }
    } else if code == 27 {
        StyleNode { reverse: false, ..s }
    } else if code == 28 {
        StyleNode { hidden: false, ..s }
    } else {
        StyleNode { strikethrough: false, ..s }
    }
}

/// Codes 30 to 49: foreground and background colors.
pub open spec fn color_rule(s: StyleNode, g: Seq<u16>) -> StyleNode {
    let code = sub_value(g, 0);
    if code <= 37 {
        StyleNode {
            foreground: Some(
                if s.bold {
                    Color::Bright(eight_bit_color(code - 30))
                } else {
                    Color::Standard(eight_bit_color(code - 30))
                },
            ),
            fg_bright_from_bold: s.bold,
            ..s
        }
    } else if code == 38 {
        match extended_color(g) {
            Some(c) => StyleNode { foreground: Some(c), fg_bright_from_bold: false, ..s },
            None => s,
        }
    } else if code == 39 {
        StyleNode { foreground: None, fg_bright_from_bold: false, ..s }
    } else if code <= 47 {
        StyleNode {
            background: Some(
                if s.bold {
                    Color::Bright(eight_bit_color(code - 40))
                } else {
                    Color::Standard(eight_bit_color(code - 40))
                },
            ),
            bg_bright_from_bold: s.bold,
            ..s
        }
    } else if code == 48 {
        match extended_color(g) {
            Some(c) => StyleNode { background: Some(c), bg_bright_from_bold: false, ..s },
            None => s,
        }
    } else {
        StyleNode { background: None, bg_bright_from_bold: false, ..s }
    }
}

/// Codes 50 and up: legacy decorations, underline color, sub- and
/// superscript, and the direct bright colors.
pub open spec fn extra_rule(s: StyleNode, g: Seq<u16>) -> StyleNode {
    let code = sub_value(g, 0);
    if code == 50 {
        StyleNode { proportional_spacing: false, ..s }
    } else if code == 51 {
        StyleNode { framed: true, ..s }
    } else if code == 52 {
        StyleNode { encircled: true, ..s }
    } else if code == 53 {
        StyleNode { overlined: true, ..s }
    } else if code == 54 {
        StyleNode { framed: false, encircled: false, ..s }
    } else if code == 55 {
        StyleNode { overlined: false, ..s }
    } else if code == 58 {
        match extended_color(g) {
            Some(c) => StyleNode { underline_color: Some(c), ..s },
            None => s,
        }
    } else if code == 59 {
        StyleNode { underline_color: None, ..s }
    } else if code == 73 {
        StyleNode { superscript: true, subscript: false, ..s }
    } else if code == 74 {
        StyleNode { subscript: true, superscript: false, ..s }
    } else if code == 75 {
        StyleNode { subscript: false, superscript: false, ..s }
    } else if code <= 97 {
        StyleNode {
            foreground: Some(Color::Bright(eight_bit_color(code - 90))),
            fg_bright_from_bold: false,
            ..s
        }
    } else {
        StyleNode {
            background: Some(Color::Bright(eight_bit_color(code - 100))),
            bg_bright_from_bold: false,
            ..s
        }
    }
}

/// The style after applying the groups `gs` in order to `s`.
pub open spec fn apply_groups(s: StyleNode, gs: Seq<Seq<u16>>) -> StyleNode
    decreases gs.len(),
{
    if gs.len() == 0 {
        s
    } else {
        apply_group(apply_groups(s, gs.drop_last()), gs.last())
    }
}

impl StyleNode {
    /// The record's invariant: a provenance flag is set only while its color
    /// is bright, and sub- and superscript exclude each other.
    pub open spec fn wf(&self) -> bool {
        &&& self.fg_bright_from_bold ==> is_bright(self.foreground)
        &&& self.bg_bright_from_bold ==> is_bright(self.background)
        &&& !(self.subscript && self.superscript)
    }

    fn extended_color(g: &Vec<u16>) -> (r: Option<Color>)
        ensures
            r == extended_color(g@),
    {
        let kind: u16 = if g.len() > 1 { g[1] } else { 0 };
        if kind == 5 {
            let p: u16 = if g.len() > 2 { g[2] } else { 0 };
            Some(Color::Palette(p as u8))
        } else if kind == 2 {
            let r: u16 = if g.len() > 2 { g[2] } else { 0 };
            let gr: u16 = if g.len() > 3 { g[3] } else { 0 };
            let b: u16 = if g.len() > 4 { g[4] } else { 0 };
            Some(
                Color::Rgb {
                    r: if r > 255 { 255 } else { r as u8 },
                    g: if gr > 255 { 255 } else { gr as u8 },
                    b: if b > 255 { 255 } else { b as u8 },
                },
            )
        } else {
            None
        }
    }

    fn underline_of(g: &Vec<u16>) -> (r: Option<UnderlineStyle>)
        ensures
            r == underline_of(g@),
    {
        let n: u16 = if g.len() < 2 { 1 } else { g[1] };
        match n {
            0 => None,
            2 => Some(UnderlineStyle::Double),
            3 => Some(UnderlineStyle::Curly),
            4 => Some(UnderlineStyle::Dotted),
            5 => Some(UnderlineStyle::Dashed),
            _ => Some(UnderlineStyle::Single),
        }
    }

    fn is_known_code(c: u16) -> (r: bool)
        ensures
            r == is_known_code(c),
    {
        c <= 55 || c == 58 || c == 59 || (73 <= c && c <= 75) || (90 <= c && c <= 97) || (100 <= c
            && c <= 107)
    }

    /// Applies one parameter group to the style.
    pub fn apply(&mut self, g: &Vec<u16>)
        ensures
            *final(self) == apply_group(*old(self), g@),
    {
        *self = Self::applied(*self, g);
    }

    fn applied(s: StyleNode, g: &Vec<u16>) -> (r: StyleNode)
        ensures
            r == apply_group(s, g@),
    {
        reveal(apply_group);
        if g.len() == 0 {
            return s;
        }
        let code = g[0];
        if !Self::is_known_code(code) {
            s
        } else if code < 10 {
            Self::basic_rule(s, g)
        } else if code < 30 {
            Self::toggle_rule(s, code)
        } else if code < 50 {
            Self::color_rule(s, g)
        } else {
            Self::extra_rule(s, g)
        }
    }

    fn basic_rule(s: StyleNode, g: &Vec<u16>) -> (r: StyleNode)
        requires
            g@.len() > 0,
            g@[0] < 10,
        ensures
            r == basic_rule(s, g@),
    {
        let code = g[0];
        if code == 0 {
            StyleNode::default()
        } else if code == 1 {
            let (foreground, fg_bright_from_bold) = match s.foreground {
                Some(Color::Standard(n)) => (Some(Color::Bright(n)), true),
                _ => (s.foreground, s.fg_bright_from_bold),
            };
            let (background, bg_bright_from_bold) = match s.background {
                Some(Color::Standard(n)) => (Some(Color::Bright(n)), true),
                _ => (s.background, s.bg_bright_from_bold),
            };
            StyleNode {
                bold: true,
                foreground,
                fg_bright_from_bold,
                background,
                bg_bright_from_bold,
                ..s
            }
        } else if code == 2 {
            StyleNode { dim: true, ..s }
        } else if code == 3 {
            StyleNode { italic: true, ..s }
        } else if code == 4 {
            StyleNode { underline: Self::underline_of(g), ..s }
        } else if code == 5 {
            StyleNode { blink: true, ..s }
        } else if code == 6 {
            StyleNode { rapid_blink: true, ..s }
        } else if code == 7 {
            StyleNode { reverse: true, ..s }
        } else if code == 8 {
            StyleNode { hidden: true, ..s }
        } else {
            StyleNode { strikethrough: true, ..s }
        }
    }

    fn demoted(c: Option<Color>) -> (r: Option<Color>)
        ensures
            r == demoted(c),
    {
        match c {
            Some(Color::Bright(n)) => Some(Color::Standard(n)),
            _ => c,
        }
    }

    fn toggle_rule(s: StyleNode, code: u16) -> (r: StyleNode)
        requires
            10 <= code < 30,
        ensures
            r == toggle_rule(s, code),
    {
        if code <= 19 {
            StyleNode { font: Font::from_u8((code - 10) as u8), ..s }
        } else if code == 20 {
            StyleNode { fraktur: true, ..s }
        } else if code == 21 || code == 22 {
            StyleNode {
                bold: false,
                dim: false,
                foreground: if s.fg_bright_from_bold {
                    Self::demoted(s.foreground)
                } else {
                    s.foreground
                },
                fg_bright_from_bold: false,
                background: if s.bg_bright_from_bold {
                    Self::demoted(s.background)
                } else {
                    s.background
                },
                bg_bright_from_bold: false,
                ..s
            }
        } else if code == 23 {
            StyleNode { italic: false, ..s }
        } else if code == 24 {
            StyleNode { underline: None, ..s }
        } else if code == 25 {
            StyleNode { blink: false, rapid_blink: false, ..s }
        } else if code == 26 {
            StyleNode { proportional_spacing: true, ..s }
        } else if code == 27 {
            StyleNode { reverse: false, ..s }
        } else if code == 28 {
            StyleNode { hidden: false, ..s }
        } else {
            StyleNode { strikethrough: false, ..s }
        }
    }

    fn color_rule(s: StyleNode, g: &Vec<u16>) -> (r: StyleNode)
        requires
            g@.len() > 0,
            30 <= g@[0] < 50,
        ensures
            r == color_rule(s, g@),
    {
        let code = g[0];
        if code <= 37 {
            let n = EightBitColor::from_u8((code - 30) as u8);
            let c = if s.bold {
                Color::Bright(n)
            } else {
                Color::Standard(n)
            };
            StyleNode { foreground: Some(c), fg_bright_from_bold: s.bold, ..s }
        } else if code == 38 {
            match Self::extended_color(g) {
                Some(c) => StyleNode { foreground: Some(c), fg_bright_from_bold: false, ..s },
                None => s,
            }
        } else if code == 39 {
            StyleNode { foreground: None, fg_bright_from_bold: false, ..s }
        } else if code <= 47 {
            let n = EightBitColor::from_u8((code - 40) as u8);
            let c = if s.bold {
                Color::Bright(n)
            } else {
                Color::Standard(n)
            };
            StyleNode { background: Some(c), bg_bright_from_bold: s.bold, ..s }
        } else if code == 48 {
            match Self::extended_color(g) {
                Some(c) => StyleNode { background: Some(c), bg_bright_from_bold: false, ..s },
                None => s,
            }
        } else {
            StyleNode { background: None, bg_bright_from_bold: false, ..s }
        }
    }

    fn extra_rule(s: StyleNode, g: &Vec<u16>) -> (r: StyleNode)
        requires
            g@.len() > 0,
            g@[0] >= 50,
            is_known_code(g@[0]),
        ensures
            r == extra_rule(s, g@),
    {
        let code = g[0];
        if code == 50 {
            StyleNode { proportional_spacing: false, ..s }
        } else if code == 51 {
            StyleNode { framed: true, ..s }
        } else if code == 52 {
            StyleNode { encircled: true, ..s }
        } else if code == 53 {
            StyleNode { overlined: true, ..s }
        } else if code == 54 {
            StyleNode { framed: false, encircled: false, ..s }
        } else if code == 55 {
            StyleNode { overlined: false, ..s }
        } else if code == 58 {
            match Self::extended_color(g) {
                Some(c) => StyleNode { underline_color: Some(c), ..s },
                None => s,
            }
        } else if code == 59 {
            StyleNode { underline_color: None, ..s }
        } else if code == 73 {
            StyleNode { superscript: true, subscript: false, ..s }
        } else if code == 74 {
            StyleNode { subscript: true, superscript: false, ..s }
        } else if code == 75 {
            StyleNode { subscript: false, superscript: false, ..s }
        } else if code <= 97 {
            let c = Color::Bright(EightBitColor::from_u8((code - 90) as u8));
            StyleNode { foreground: Some(c), fg_bright_from_bold: false, ..s }
        } else {
            let c = Color::Bright(EightBitColor::from_u8((code - 100) as u8));
            StyleNode { background: Some(c), bg_bright_from_bold: false, ..s }
        }
    }

    /// Applies the parameter groups of an SGR sequence in order.
    pub fn apply_all(&mut self, params: &[Vec<u16>])
        ensures
            *final(self) == apply_groups(*old(self), params.deep_view()),
    {
        let ghost start = *self;
        let mut st = *self;
        let mut i: usize = 0;
        while i < params.len()
            invariant
                i <= params.len(),
                st == apply_groups(start, params.deep_view().take(i as int)),
            decreases params.len() - i,
        {
            proof {
                let gs = params.deep_view().take(i as int + 1);
                assert(gs.drop_last() =~= params.deep_view().take(i as int));
                assert(params@[i as int].deep_view() =~= params@[i as int]@);
                assert(gs.last() == params@[i as int]@);
            }
            st = Self::applied(st, &params[i]);
            i = i + 1;
        }
        proof {
            assert(params.deep_view().take(i as int) =~= params.deep_view());
        }
        *self = st;
    }

    /// The style that an SGR sequence with groups `params` selects when
    /// applied to the plain style.
    pub fn from_ansi_node(params: &[Vec<u16>]) -> (r: Self)
        ensures
            r == apply_groups(plain_style(), params.deep_view()),
            r.wf(),
    {
        let mut result = StyleNode::default();
        result.apply_all(params);
        proof {
            lemma_apply_groups_wf(plain_style(), params.deep_view());
        }
        result
    }
}

proof fn lemma_basic_rule_wf(s: StyleNode, g: Seq<u16>)
    requires
        s.wf(),
        g.len() > 0,
        g[0] < 10,
    ensures
        basic_rule(s, g).wf(),
{
}

proof fn lemma_toggle_rule_wf(s: StyleNode, code: u16)
    requires
        s.wf(),
        10 <= code < 30,
    ensures
        toggle_rule(s, code).wf(),
{
}

proof fn lemma_color_rule_wf(s: StyleNode, g: Seq<u16>)
    requires
        s.wf(),
        g.len() > 0,
        30 <= g[0] < 50,
    ensures
        color_rule(s, g).wf(),
{
}

proof fn lemma_extra_rule_wf(s: StyleNode, g: Seq<u16>)
    requires
        s.wf(),
        g.len() > 0,
        g[0] >= 50,
    ensures
        extra_rule(s, g).wf(),
{
    let code = g[0];
    let r = extra_rule(s, g);
    if code <= 55 {
        assert(r.wf());
    } else if code == 58 {
        assert(r.wf());
    } else if code == 59 {
        assert(r.wf());
    } else if code == 73 {
        assert(r.wf());
    } else if code == 74 {
        assert(r.wf());
    } else if code == 75 {
        assert(r.wf());
    } else if code <= 97 {
        assert(r.wf());
    } else {
        assert(r.wf());
    }
}

/// Every parameter group keeps the style's invariant.
pub proof fn lemma_apply_group_wf(s: StyleNode, g: Seq<u16>)
    requires
        s.wf(),
    ensures
        apply_group(s, g).wf(),
{
    reveal(apply_group);
    let code = sub_value(g, 0);
    if g.len() == 0 || !is_known_code(code) {
    } else if code < 10 {
        lemma_basic_rule_wf(s, g);
    } else if code < 30 {
        lemma_toggle_rule_wf(s, code);
    } else if code < 50 {
        lemma_color_rule_wf(s, g);
    } else {
        lemma_extra_rule_wf(s, g);
    }
}

/// Any sequence of parameter groups keeps the style's invariant.
pub proof fn lemma_apply_groups_wf(s: StyleNode, gs: Seq<Seq<u16>>)
    requires
        s.wf(),
    ensures
        apply_groups(s, gs).wf(),
    decreases gs.len(),
{
    if gs.len() > 0 {
        lemma_apply_groups_wf(s, gs.drop_last());
        lemma_apply_group_wf(apply_groups(s, gs.drop_last()), gs.last());
    }
}

/// Bold then a standard foreground then bold-off leaves the standard color;
/// an explicit bright foreground then bold then bold-off leaves it bright.
pub proof fn lemma_bold_bright_symmetry(s: StyleNode, n: u16)
    requires
        n < 8,
    ensures
        apply_groups(s, seq![seq![1u16], seq![(30 + n) as u16], seq![22u16]]).foreground == Some(
            Color::Standard(eight_bit_color(n as int)),
        ),
        apply_groups(s, seq![seq![(90 + n) as u16], seq![1u16], seq![22u16]]).foreground == Some(
            Color::Bright(eight_bit_color(n as int)),
        ),
{
    reveal(apply_group);
    let a = seq![seq![1u16], seq![(30 + n) as u16], seq![22u16]];
    assert(a.drop_last() =~= seq![seq![1u16], seq![(30 + n) as u16]]);
    assert(a.drop_last().drop_last() =~= seq![seq![1u16]]);
    assert(a.drop_last().drop_last().drop_last() =~= Seq::<Seq<u16>>::empty());
    let b = seq![seq![(90 + n) as u16], seq![1u16], seq![22u16]];
    assert(b.drop_last() =~= seq![seq![(90 + n) as u16], seq![1u16]]);
    assert(b.drop_last().drop_last() =~= seq![seq![(90 + n) as u16]]);
    assert(b.drop_last().drop_last().drop_last() =~= Seq::<Seq<u16>>::empty());
    reveal_with_fuel(apply_groups, 4);
}

/// A reset group discards everything before it: the groups after the last
/// reset decide the style alone.
pub proof fn lemma_reset_dominance(s: StyleNode, gs: Seq<Seq<u16>>, k: int)
    requires
        0 <= k < gs.len(),
        gs[k].len() > 0,
        gs[k][0] == 0,
    ensures
        apply_groups(s, gs) == apply_groups(plain_style(), gs.subrange(k + 1, gs.len() as int)),
    decreases gs.len(),
{
    reveal(apply_group);
    let rest = gs.subrange(k + 1, gs.len() as int);
    if gs.len() == k + 1 {
        assert(rest =~= Seq::<Seq<u16>>::empty());
        assert(gs.last() == gs[k]);
    } else {
        lemma_reset_dominance(s, gs.drop_last(), k);
        assert(rest.drop_last() =~= gs.drop_last().subrange(k + 1, gs.len() - 1));
        assert(rest.last() == gs.last());
    }
}

/// A group whose leading value selects no rule leaves the style unchanged.
pub proof fn lemma_unknown_code_is_noop(s: StyleNode, g: Seq<u16>)
    requires
        g.len() > 0,
        !is_known_code(g[0]),
    ensures
        apply_group(s, g) == s,
{
    reveal(apply_group);
}

/// The lowercase hexadecimal digit for `n` (0 to 15).
pub open spec fn hex_digit(n: u8) -> char {
    seq!['0', '1', '2', '3', '4', '5', '6', '7', '8', '9', 'a', 'b', 'c', 'd', 'e', 'f'][n as int]
}

/// `#RGB` where each channel's two nibbles agree, `#RRGGBB` otherwise.
pub open spec fn rgb_hex(r: u8, g: u8, b: u8) -> Seq<char> {
    if r % 16 == r / 16 && g % 16 == g / 16 && b % 16 == b / 16 {
        seq!['#', hex_digit(r % 16), hex_digit(g % 16), hex_digit(b % 16)]
    } else {
        seq![
            '#',
            hex_digit(r / 16),
            hex_digit(r % 16),
            hex_digit(g / 16),
            hex_digit(g % 16),
            hex_digit(b / 16),
            hex_digit(b % 16),
        ]
    }
}

/// The table of the standard colors.
pub open spec fn standard_rgb(c: EightBitColor) -> (u8, u8, u8) {
    match c {
        EightBitColor::Black => (0, 0, 0),
        EightBitColor::Red => (0xcd, 0, 0),
        EightBitColor::Green => (0, 0xcd, 0),
        EightBitColor::Yellow => (0xcd, 0xcd, 0),
        EightBitColor::Blue => (0, 0, 0xee),
        EightBitColor::Magenta => (0xcd, 0, 0xcd),
        EightBitColor::Cyan => (0, 0xcd, 0xcd),
        EightBitColor::White => (0xe5, 0xe5, 0xe5),
    }
}

/// The table of the bright colors.
pub open spec fn bright_rgb(c: EightBitColor) -> (u8, u8, u8) {
    match c {
        EightBitColor::Black => (0x7f, 0x7f, 0x7f),
        EightBitColor::Red => (0xff, 0, 0),
        EightBitColor::Green => (0, 0xff, 0),
        EightBitColor::Yellow => (0xff, 0xff, 0),
        EightBitColor::Blue => (0x5c, 0x5c, 0xff),
        EightBitColor::Magenta => (0xff, 0, 0xff),
        EightBitColor::Cyan => (0, 0xff, 0xff),
        EightBitColor::White => (0xff, 0xff, 0xff),
    }
}

/// Palette entry `p`: the two tables, then the 6x6x6 cube, then a gray ramp.
pub open spec fn palette_rgb(p: u8) -> (u8, u8, u8) {
    if p < 8 {
        standard_rgb(eight_bit_color(p as int))
    } else if p < 16 {
        bright_rgb(eight_bit_color(p - 8))
    } else if p < 232 {
        let n = p - 16;
        (((n / 36) * 51) as u8, ((n / 6 % 6) * 51) as u8, ((n % 6) * 51) as u8)
    } else {
        let gray = (8 + (p - 232) * 10) as u8;
        (gray, gray, gray)
    }
}

pub open spec fn color_rgb(c: Color) -> (u8, u8, u8) {
    match c {
        Color::Standard(n) => standard_rgb(n),
        Color::Bright(n) => bright_rgb(n),
        Color::Palette(p) => palette_rgb(p),
        Color::Rgb { r, g, b } => (r, g, b),
    }
}

/// The hex notation of a color.
#[verifier::opaque]
pub open spec fn color_hex(c: Color) -> Seq<char> {
    let (r, g, b) = color_rgb(c);
    rgb_hex(r, g, b)
}

/// The element that carries a style: `sub`, `sup` or `span`.
pub open spec fn tag_name(s: StyleNode) -> Seq<char> {
    if s.subscript {
        seq!['s', 'u', 'b']
    } else if s.superscript {
        seq!['s', 'u', 'p']
    } else {
        seq!['s', 'p', 'a', 'n']
    }
}

pub open spec fn underline_decl(u: Option<UnderlineStyle>) -> Seq<char> {
    match u {
        None => Seq::empty(),
        Some(UnderlineStyle::Single) => "text-decoration:underline;"@,
        Some(UnderlineStyle::Double) => "text-decoration:underline double;"@,
        Some(UnderlineStyle::Curly) => "text-decoration:underline wavy;"@,
        Some(UnderlineStyle::Dotted) => "text-decoration:underline dotted;"@,
        Some(UnderlineStyle::Dashed) => "text-decoration:underline dashed;"@,
    }
}

/// `name` followed by the color's hex and `;`, or nothing without a color.
pub open spec fn color_decl(name: Seq<char>, c: Option<Color>) -> Seq<char> {
    match c {
        None => Seq::empty(),
        Some(c) => name + color_hex(c) + seq![';'],
    }
}

/// Weight, opacity and font style.
pub open spec fn font_decls(s: StyleNode) -> Seq<char> {
    (if s.bold {
        "font-weight:bold;"@
    } else {
        Seq::empty()
    }) + (if s.dim {
        "opacity:.5;"@
    } else {
        Seq::empty()
    }) + (if s.italic {
        "font-style:italic;"@
    } else {
        Seq::empty()
    })
}

/// The inline declarations of a style, in the order weight, opacity, font
/// style, decoration, decoration color, foreground, background; with
/// `reverse` the two colors trade places.
pub open spec fn style_decls(s: StyleNode) -> Seq<char> {
    let fg = if s.reverse {
        s.background
    } else {
        s.foreground
    };
    let bg = if s.reverse {
        s.foreground
    } else {
        s.background
    };
    font_decls(s) + underline_decl(s.underline) + color_decl("text-decoration-color:"@, s.underline_color)
        + color_decl("color:"@, fg) + color_decl("background:"@, bg)
}

/// The opening tag that carries the style.
pub open spec fn open_tag(s: StyleNode) -> Seq<char> {
    seq!['<'] + tag_name(s) + " style=\""@ + style_decls(s) + "\">"@
}

/// The closing tag that matches [`open_tag`].
pub open spec fn close_tag(s: StyleNode) -> Seq<char> {
    seq!['<', '/'] + tag_name(s) + seq!['>']
}

fn hex_char(n: u8) -> (c: char)
    requires
        n < 16,
    ensures
        c == hex_digit(n),
{
    match n {
        0 => '0',
        1 => '1',
        2 => '2',
        3 => '3',
        4 => '4',
        5 => '5',
        6 => '6',
        7 => '7',
        8 => '8',
        9 => '9',
        10 => 'a',
        11 => 'b',
        12 => 'c',
        13 => 'd',
        14 => 'e',
        _ => 'f',
    }
}

impl StyleNode {
    fn standard_rgb(c: EightBitColor) -> (r: (u8, u8, u8))
        ensures
            r == standard_rgb(c),
    {
        match c {
            EightBitColor::Black => (0, 0, 0),
            EightBitColor::Red => (0xcd, 0, 0),
            EightBitColor::Green => (0, 0xcd, 0),
            EightBitColor::Yellow => (0xcd, 0xcd, 0),
            EightBitColor::Blue => (0, 0, 0xee),
            EightBitColor::Magenta => (0xcd, 0, 0xcd),
            EightBitColor::Cyan => (0, 0xcd, 0xcd),
            EightBitColor::White => (0xe5, 0xe5, 0xe5),
        }
    }

    fn bright_rgb(c: EightBitColor) -> (r: (u8, u8, u8))
        ensures
            r == bright_rgb(c),
    {
        match c {
            EightBitColor::Black => (0x7f, 0x7f, 0x7f),
            EightBitColor::Red => (0xff, 0, 0),
            EightBitColor::Green => (0, 0xff, 0),
            EightBitColor::Yellow => (0xff, 0xff, 0),
            EightBitColor::Blue => (0x5c, 0x5c, 0xff),
            EightBitColor::Magenta => (0xff, 0, 0xff),
            EightBitColor::Cyan => (0, 0xff, 0xff),
            EightBitColor::White => (0xff, 0xff, 0xff),
        }
    }

    fn color_rgb(c: &Color) -> (r: (u8, u8, u8))
        ensures
            r == color_rgb(*c),
    {
        match c {
            Color::Standard(n) => Self::standard_rgb(*n),
            Color::Bright(n) => Self::bright_rgb(*n),
            Color::Palette(p) => {
                let p = *p;
                if p < 8 {
                    Self::standard_rgb(EightBitColor::from_u8(p))
                } else if p < 16 {
                    Self::bright_rgb(EightBitColor::from_u8(p - 8))
                } else if p < 232 {
                    let n = p - 16;
                    ((n / 36) * 51, (n / 6 % 6) * 51, (n % 6) * 51)
                } else {
                    let gray = 8 + (p - 232) * 10;
                    (gray, gray, gray)
                }
            },
            Color::Rgb { r, g, b } => (*r, *g, *b),
        }
    }

    fn push_hex(s: &mut String, byte: u8)
        ensures
            final(s)@ == old(s)@ + seq![hex_digit(byte / 16), hex_digit(byte % 16)],
    {
        push_char(s, hex_char(byte / 16));
        push_char(s, hex_char(byte % 16));
    }

    fn push_hex_rgb(s: &mut String, r: u8, g: u8, b: u8)
        ensures
            final(s)@ == old(s)@ + rgb_hex(r, g, b),
    {
        push_char(s, '#');
        if r % 16 == r / 16 && g % 16 == g / 16 && b % 16 == b / 16 {
            push_char(s, hex_char(r % 16));
            push_char(s, hex_char(g % 16));
            push_char(s, hex_char(b % 16));
        } else {
            Self::push_hex(s, r);
            Self::push_hex(s, g);
            Self::push_hex(s, b);
        }
        assert(s@ =~= old(s)@ + rgb_hex(r, g, b));
    }

    fn append_color(html: &mut String, color: &Color)
        ensures
            final(html)@ == old(html)@ + color_hex(*color),
    {
        reveal(color_hex);
        let (r, g, b) = Self::color_rgb(color);
        Self::push_hex_rgb(html, r, g, b);
    }

    fn append_color_decl(html: &mut String, name: &str, c: Option<Color>)
        ensures
            final(html)@ == old(html)@ + color_decl(name@, c),
    {
        if let Some(c) = c {
            html.append(name);
            Self::append_color(html, &c);
            push_char(html, ';');
            assert(html@ =~= old(html)@ + color_decl(name@, Some(c)));
        } else {
            assert(html@ =~= old(html)@ + color_decl(name@, c));
        }
    }

    fn append_tag_name(&self, html: &mut String)
        ensures
            final(html)@ == old(html)@ + tag_name(*self),
    {
        if self.subscript {
            push_char(html, 's');
            push_char(html, 'u');
            push_char(html, 'b');
        } else if self.superscript {
            push_char(html, 's');
            push_char(html, 'u');
            push_char(html, 'p');
        } else {
            push_char(html, 's');
            push_char(html, 'p');
            push_char(html, 'a');
            push_char(html, 'n');
        }
        assert(html@ =~= old(html)@ + tag_name(*self));
    }

    fn append_font_decls(&self, html: &mut String)
        ensures
            final(html)@ == old(html)@ + font_decls(*self),
    {
        let ghost start = html@;
        if self.bold {
            html.append("font-weight:bold;");
        }
        if self.dim {
            html.append("opacity:.5;");
        }
        if self.italic {
            html.append("font-style:italic;");
        }
        assert(html@ =~= start + font_decls(*self));
    }

    fn append_underline_decl(html: &mut String, u: Option<UnderlineStyle>)
        ensures
            final(html)@ == old(html)@ + underline_decl(u),
    {
        match u {
            Some(UnderlineStyle::Single) => html.append("text-decoration:underline;"),
            Some(UnderlineStyle::Double) => html.append("text-decoration:underline double;"),
            Some(UnderlineStyle::Curly) => html.append("text-decoration:underline wavy;"),
            Some(UnderlineStyle::Dotted) => html.append("text-decoration:underline dotted;"),
            Some(UnderlineStyle::Dashed) => html.append("text-decoration:underline dashed;"),
            None => {
                assert(html@ =~= old(html)@ + underline_decl(u));
            },
        }
    }

    fn append_decls(&self, html: &mut String)
        ensures
            final(html)@ == old(html)@ + style_decls(*self),
    {
        let ghost start = html@;
        self.append_font_decls(html);
        Self::append_underline_decl(html, self.underline);
        Self::append_color_decl(html, "text-decoration-color:", self.underline_color);
        let (fg, bg) = if self.reverse {
            (self.background, self.foreground)
        } else {
            (self.foreground, self.background)
        };
        Self::append_color_decl(html, "color:", fg);
        Self::append_color_decl(html, "background:", bg);
        assert(html@ =~= start + style_decls(*self));
    }

    /// Renders the style as the opening tag of an element with an inline
    /// style; with `reverse` set, foreground and background trade places in
    /// the declarations.
    pub fn to_html(&self) -> (html: String)
        ensures
            html@ == open_tag(*self),
    {
        let mut html = String::new();
        push_char(&mut html, '<');
        self.append_tag_name(&mut html);
        html.append(" style=\"");
        self.append_decls(&mut html);
        html.append("\">");
        assert(html@ =~= open_tag(*self));
        html
    }

    /// The closing tag of the element that [`StyleNode::to_html`] opens.
    pub fn close_html(&self) -> (html: String)
        ensures
            html@ == close_tag(*self),
    {
        let mut html = String::new();
        push_char(&mut html, '<');
        push_char(&mut html, '/');
        self.append_tag_name(&mut html);
        push_char(&mut html, '>');
        assert(html@ =~= close_tag(*self));
        html
    }
}

} // verus!
