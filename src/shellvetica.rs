//! The eight-color token front end: text characters, foreground color
//! changes and closes, optimized by [`crate::runs`] and rendered as spans
//! with named colors.
use crate::runs::{
    keys_below, lemma_optimized_idempotent, lemma_optimized_keys_below, optimize, optimized, Mark,
};
use crate::text::push_char;
use vstd::prelude::*;
use vstd::string::*;

verus! {

#[derive(Debug, Clone, Copy, PartialEq, Eq, Structural)]
pub enum Color {
    Black,
    Red,
    Green,
    Yellow,
    Blue,
    Magenta,
    Cyan,
    White,
}

#[derive(Debug, Clone, Copy, PartialEq, Eq, Structural)]
pub enum Token {
    Text(char),
    Color(Color),
    Close,
}

/// The key under which the optimizer carries a color.
pub open spec fn color_key(c: Color) -> u64 {
    match c {
        Color::Black => 0,
        Color::Red => 1,
        Color::Green => 2,
        Color::Yellow => 3,
        Color::Blue => 4,
        Color::Magenta => 5,
        Color::Cyan => 6,
        Color::White => 7,
    }
}

/// The color with key `k`; keys past 7 give white.
pub open spec fn key_color(k: u64) -> Color {
    if k == 0 {
        Color::Black
    } else if k == 1 {
        Color::Red
    } else if k == 2 {
        Color::Green
    } else if k == 3 {
        Color::Yellow
    } else if k == 4 {
        Color::Blue
    } else if k == 5 {
        Color::Magenta
    } else if k == 6 {
        Color::Cyan
    } else {
        Color::White
    }
}

pub open spec fn token_mark(t: Token) -> Mark {
    match t {
        Token::Text(c) => Mark::Glyph(c),
        Token::Color(c) => Mark::Open(color_key(c)),
        Token::Close => Mark::Close,
    }
}

pub open spec fn mark_token(m: Mark) -> Token {
    match m {
        Mark::Glyph(c) => Token::Text(c),
        Mark::Open(k) => Token::Color(key_color(k)),
        Mark::Close => Token::Close,
    }
}

pub open spec fn marks_of(ts: Seq<Token>) -> Seq<Mark> {
    ts.map_values(|t: Token| token_mark(t))
}

pub open spec fn tokens_of(ms: Seq<Mark>) -> Seq<Token> {
    ms.map_values(|m: Mark| mark_token(m))
}

/// The token stream that the optimizer makes of `ts`.
pub open spec fn optimized_tokens(ts: Seq<Token>) -> Seq<Token> {
    tokens_of(optimized(marks_of(ts)))
}

pub open spec fn is_ascii_alpha(c: char) -> bool {
    ('a' <= c && c <= 'z') || ('A' <= c && c <= 'Z')
}

/// Where a sequence whose body starts at `i` ends: just past its first
/// alphabetic character, or at the end of the input.
pub open spec fn sequence_end(cs: Seq<char>, i: int) -> int
    decreases cs.len() - i,
{
    if i >= cs.len() {
        cs.len() as int
    } else if is_ascii_alpha(cs[i]) {
        i + 1
    } else {
        sequence_end(cs, i + 1)
    }
}

proof fn lemma_sequence_end(cs: Seq<char>, i: int)
    requires
        0 <= i <= cs.len(),
    ensures
        i <= sequence_end(cs, i) <= cs.len(),
    decreases cs.len() - i,
{
    if i < cs.len() && !is_ascii_alpha(cs[i]) {
        lemma_sequence_end(cs, i + 1);
    }
}

/// The token for the body of an escape sequence (what follows `ESC [`):
/// `3n m` a color, `39m`, `49m`, `39;49m`, `49;39m` or `0m` a close, and
/// anything else black.
pub open spec fn sequence_token(body: Seq<char>) -> Token {
    if body.len() == 3 && body[0] == '3' && '0' <= body[1] && body[1] <= '7' && body[2] == 'm' {
        Token::Color(key_color((body[1] as u32 - '0' as u32) as u64))
    } else if body == seq!['3', '9', 'm'] || body == seq!['4', '9', 'm'] || body == seq![
        '3',
        '9',
        ';',
        '4',
        '9',
        'm',
    ] || body == seq!['4', '9', ';', '3', '9', 'm'] || body == seq!['0', 'm'] {
        Token::Close
    } else {
        Token::Color(Color::Black)
    }
}

pub open spec fn text_token(cs: Seq<char>, i: int) -> Token {
    Token::Text(cs[i])
}

/// The tokens of the characters from `i` on: `ESC [` starts an escape
/// sequence, every other character is text.
pub open spec fn tokens_from(cs: Seq<char>, i: int) -> Seq<Token>
    decreases cs.len() - i,
{
    if i >= cs.len() || i < 0 {
        Seq::empty()
    } else if cs[i] == '\x1b' && i + 1 < cs.len() && cs[i + 1] == '[' {
        let e = sequence_end(cs, i + 2);
        let next = if i < e <= cs.len() {
            e
        } else {
            i + 1
        };
        seq![sequence_token(cs.subrange(i + 2, e))] + tokens_from(cs, next)
    } else {
        seq![text_token(cs, i)] + tokens_from(cs, i + 1)
    }
}

pub open spec fn color_name(c: Color) -> Seq<char> {
    match c {
        Color::Black => "black"@,
        Color::Red => "red"@,
        Color::Green => "green"@,
        Color::Yellow => "yellow"@,
        Color::Blue => "blue"@,
        Color::Magenta => "magenta"@,
        Color::Cyan => "cyan"@,
        Color::White => "white"@,
    }
}

/// The markup of one token.
pub open spec fn token_html(t: Token) -> Seq<char> {
    match t {
        Token::Text(c) => seq![c],
        Token::Color(c) => "<span style=\"color:"@ + color_name(c) + "\">"@,
        Token::Close => "</span>"@,
    }
}

/// The markup of a token stream.
pub open spec fn tokens_html(ts: Seq<Token>) -> Seq<char>
    decreases ts.len(),
{
    if ts.len() == 0 {
        Seq::empty()
    } else {
        tokens_html(ts.drop_last()) + token_html(ts.last())
    }
}

pub struct Shellvetica {
    pub ast: Vec<Token>,
}

impl Shellvetica {
    /// Tokenizes and optimizes terminal output.
    pub fn convert(input: &str) -> (r: Self)
        ensures
            r.ast@ == optimized_tokens(tokens_from(input@, 0)),
    {
        Self { ast: Self::optimize_ast(&Self::str_2_ast(input)) }
    }

    fn color_key(c: Color) -> (k: u64)
        ensures
            k == color_key(c),
    {
        match c {
            Color::Black => 0,
            Color::Red => 1,
            Color::Green => 2,
            Color::Yellow => 3,
            Color::Blue => 4,
            Color::Magenta => 5,
            Color::Cyan => 6,
            Color::White => 7,
        }
    }

    fn key_color(k: u64) -> (c: Color)
        ensures
            c == key_color(k),
    {
        match k {
            0 => Color::Black,
            1 => Color::Red,
            2 => Color::Green,
            3 => Color::Yellow,
            4 => Color::Blue,
            5 => Color::Magenta,
            6 => Color::Cyan,
            _ => Color::White,
        }
    }

    fn matches_chars(body: &Vec<char>, pat: &[char]) -> (r: bool)
        ensures
            r == (body@ == pat@),
    {
        if body.len() != pat.len() {
            return false;
        }
        let mut i: usize = 0;
        while i < body.len()
            invariant
                body@.len() == pat@.len(),
                i <= body@.len(),
                forall|t: int| 0 <= t < i ==> body@[t] == pat@[t],
            decreases body@.len() - i,
        {
            if body[i] != pat[i] {
                return false;
            }
            i = i + 1;
        }
        assert(body@ =~= pat@);
        true
    }

    fn sequence_token(body: &Vec<char>) -> (t: Token)
        ensures
            t == sequence_token(body@),
    {
        if body.len() == 3 && body[0] == '3' && '0' <= body[1] && body[1] <= '7' && body[2] == 'm' {
            Token::Color(Self::key_color((body[1] as u32 - '0' as u32) as u64))
        } else if Self::matches_chars(body, &['3', '9', 'm']) || Self::matches_chars(
            body,
            &['4', '9', 'm'],
        ) || Self::matches_chars(body, &['3', '9', ';', '4', '9', 'm']) || Self::matches_chars(
            body,
            &['4', '9', ';', '3', '9', 'm'],
        ) || Self::matches_chars(body, &['0', 'm']) {
            Token::Close
        } else {
            Token::Color(Color::Black)
        }
    }

    /// Splits terminal output into character, color and close tokens.
    pub fn str_2_ast(input: &str) -> (r: Vec<Token>)
        ensures
            r@ == tokens_from(input@, 0),
    {
        let n = input.unicode_len();
        let mut result: Vec<Token> = Vec::new();
        let mut i: usize = 0;
        while i < n
            invariant
                n == input@.len(),
                i <= n,
                result@ + tokens_from(input@, i as int) == tokens_from(input@, 0),
            decreases n - i,
        {
            let c = input.get_char(i);
            if c == '\x1b' && i + 1 < n && input.get_char(i + 1) == '[' {
                let mut body: Vec<char> = Vec::new();
                let mut j: usize = i + 2;
                let mut end_found = false;
                while !end_found && j < n
                    invariant
                        n == input@.len(),
                        i + 2 <= j <= n,
                        body@ == input@.subrange(i + 2, j as int),
                        end_found ==> sequence_end(input@, i + 2) == j,
                        !end_found ==> sequence_end(input@, i + 2) == sequence_end(
                            input@,
                            j as int,
                        ),
                    decreases n - j,
                {
                    let d = input.get_char(j);
                    body.push(d);
                    if ('a' <= d && d <= 'z') || ('A' <= d && d <= 'Z') {
                        end_found = true;
                    }
                    j = j + 1;
                    proof {
                        assert(body@ =~= input@.subrange(i + 2, j as int));
                    }
                }
                proof {
                    lemma_sequence_end(input@, i + 2);
                    assert(sequence_end(input@, i + 2) == j);
                }
                let ghost before = result@;
                result.push(Self::sequence_token(&body));
                proof {
                    assert(result@ + tokens_from(input@, j as int) =~= before + tokens_from(
                        input@,
                        i as int,
                    ));
                }
                i = j;
            } else {
                let ghost before = result@;
                result.push(Token::Text(c));
                proof {
                    assert(result@ + tokens_from(input@, i + 1) =~= before + tokens_from(
                        input@,
                        i as int,
                    ));
                }
                i = i + 1;
            }
        }
        proof {
            assert(result@ =~= result@ + tokens_from(input@, i as int));
        }
        result
    }

    /// Reduces a token stream to the fewest tokens that color every
    /// character as before, with uncolored whitespace between two stretches
    /// of one color taken into it.
    pub fn optimize_ast(ast: &Vec<Token>) -> (r: Vec<Token>)
        ensures
            r@ == optimized_tokens(ast@),
    {
        let mut marks: Vec<Mark> = Vec::new();
        let mut i: usize = 0;
        while i < ast.len()
            invariant
                i <= ast@.len(),
                marks@ == marks_of(ast@.take(i as int)),
            decreases ast@.len() - i,
        {
            let m = match ast[i] {
                Token::Text(c) => Mark::Glyph(c),
                Token::Color(c) => Mark::Open(Self::color_key(c)),
                Token::Close => Mark::Close,
            };
            marks.push(m);
            i = i + 1;
            proof {
                assert(marks@ =~= marks_of(ast@.take(i as int)));
            }
        }
        proof {
            assert(ast@.take(i as int) =~= ast@);
        }
        let out = optimize(&marks);
        let mut result: Vec<Token> = Vec::new();
        let mut j: usize = 0;
        while j < out.len()
            invariant
                j <= out@.len(),
                result@ == tokens_of(out@.take(j as int)),
            decreases out@.len() - j,
        {
            let t = match out[j] {
                Mark::Glyph(c) => Token::Text(c),
                Mark::Open(k) => Token::Color(Self::key_color(k)),
                Mark::Close => Token::Close,
            };
            result.push(t);
            j = j + 1;
            proof {
                assert(result@ =~= tokens_of(out@.take(j as int)));
            }
        }
        proof {
            assert(out@.take(j as int) =~= out@);
        }
        result
    }

    fn push_token_html(html: &mut String, t: Token)
        ensures
            final(html)@ == old(html)@ + token_html(t),
    {
        match t {
            Token::Text(c) => push_char(html, c),
            Token::Color(c) => {
                html.append("<span style=\"color:");
                let name = match c {
                    Color::Black => "black",
                    Color::Red => "red",
                    Color::Green => "green",
                    Color::Yellow => "yellow",
                    Color::Blue => "blue",
                    Color::Magenta => "magenta",
                    Color::Cyan => "cyan",
                    Color::White => "white",
                };
                html.append(name);
                html.append("\">");
                assert(html@ =~= old(html)@ + token_html(t));
            },
            Token::Close => html.append("</span>"),
        }
    }

    /// Renders the tokens as markup.
    pub fn export(&self) -> (html: String)
        ensures
            html@ == tokens_html(self.ast@),
    {
        let mut html = String::new();
        let mut i: usize = 0;
        while i < self.ast.len()
            invariant
                i <= self.ast@.len(),
                html@ == tokens_html(self.ast@.take(i as int)),
            decreases self.ast@.len() - i,
        {
            Self::push_token_html(&mut html, self.ast[i]);
            i = i + 1;
            proof {
                assert(self.ast@.take(i as int).drop_last() =~= self.ast@.take(i - 1));
            }
        }
        proof {
            assert(self.ast@.take(i as int) =~= self.ast@);
        }
        html
    }
}

proof fn lemma_marks_below(ts: Seq<Token>)
    ensures
        keys_below(marks_of(ts), 8),
{
    assert forall|i: int| 0 <= i < marks_of(ts).len() implies (#[trigger] marks_of(ts)[i] matches Mark::Open(
        k,
    ) ==> k < 8) by {
        assert(marks_of(ts)[i] == token_mark(ts[i]));
    }
}

proof fn lemma_marks_round_trip(ms: Seq<Mark>)
    requires
        keys_below(ms, 8),
    ensures
        marks_of(tokens_of(ms)) == ms,
{
    assert forall|i: int| 0 <= i < ms.len() implies marks_of(tokens_of(ms))[i] == ms[i] by {
        let m = ms[i];
        assert(m matches Mark::Open(k) ==> k < 8);
    }
    assert(marks_of(tokens_of(ms)) =~= ms);
}

/// Optimizing the optimizer's output changes nothing.
pub proof fn lemma_optimize_ast_idempotent(ts: Seq<Token>)
    ensures
        optimized_tokens(optimized_tokens(ts)) == optimized_tokens(ts),
{
    let ms = optimized(marks_of(ts));
    lemma_marks_below(ts);
    lemma_optimized_keys_below(marks_of(ts), 8);
    lemma_marks_round_trip(ms);
    lemma_optimized_idempotent(marks_of(ts));
}

} // verus!
