//! The sequence lexer: terminal output bytes to a sequence of nodes.
//!
//! The lexer is a state machine over bytes. Printable bytes and the
//! whitespace controls (line feed, carriage return, tab) gather in a text
//! run; `ESC [` starts a control sequence, `ESC ]` an operating system
//! command, `ESC` with any other byte a single escape dispatch, and the other
//! C0 controls and DEL stand alone. A sequence cut off by the end of the
//! input is dropped. Before lexing, each CR LF pair becomes a single LF.
use crate::text::{decode_lossy, utf8_lossy};
use vstd::prelude::*;

verus! {

pub const ESC: u8 = 0x1b;

pub const BEL: u8 = 0x07;

/// The most parameter values a control sequence keeps; later ones are
/// dropped.
pub const MAX_PARAMS: usize = 32;

#[derive(Debug, Clone, PartialEq)]
pub enum AnsiNode {
    Text(String),
    Csi { params: Vec<Vec<u16>>, intermediates: Vec<u8>, code: char },
    Esc { intermediates: Vec<u8>, byte: u8 },
    ControlChar(u8),
    Osc { params: Vec<Vec<u8>>, bell_terminated: bool },
}

/// What the lexer emits, with a text run as the bytes it was made of.
pub enum Lexeme {
    Text(Seq<u8>),
    Csi { params: Seq<Seq<u16>>, intermediates: Seq<u8>, code: char },
    Esc { intermediates: Seq<u8>, byte: u8 },
    ControlChar(u8),
    Osc { params: Seq<Seq<u8>>, bell_terminated: bool },
}

/// The node `n` is the lexeme `l`, a text run decoded as UTF-8.
pub open spec fn node_is(n: AnsiNode, l: Lexeme) -> bool {
    match (n, l) {
        (AnsiNode::Text(s), Lexeme::Text(b)) => s@ == utf8_lossy(b),
        (
            AnsiNode::Csi { params, intermediates, code },
            Lexeme::Csi { params: p, intermediates: i, code: c },
        ) => params.deep_view() == p && intermediates@ == i && code == c,
        (AnsiNode::Esc { intermediates, byte }, Lexeme::Esc { intermediates: i, byte: b }) => {
            intermediates@ == i && byte == b
        },
        (AnsiNode::ControlChar(b), Lexeme::ControlChar(c)) => b == c,
        (
            AnsiNode::Osc { params, bell_terminated },
            Lexeme::Osc { params: p, bell_terminated: t },
        ) => params.deep_view() == p && bell_terminated == t,
        _ => false,
    }
}

pub open spec fn nodes_are(ns: Seq<AnsiNode>, ls: Seq<Lexeme>) -> bool {
    ns.len() == ls.len() && forall|i: int| 0 <= i < ns.len() ==> node_is(#[trigger] ns[i], ls[i])
}

impl AnsiNode {
    /// A node that takes no room on screen: an empty text, or a control
    /// byte other than the whitespace controls.
    pub fn is_zero_width(&self) -> (r: bool)
        ensures
            r == match self {
                AnsiNode::Text(s) => s@.len() == 0,
                AnsiNode::ControlChar(b) => *b <= 0x08 || *b == 0x0b || *b == 0x0c || (0x0e <= *b
                    && *b <= 0x1f) || *b == 0x7f,
                _ => false,
            },
    {
        match self {
            AnsiNode::Text(s) => s.as_str().unicode_len() == 0,
            AnsiNode::ControlChar(b) => *b <= 0x08 || *b == 0x0b || *b == 0x0c || (0x0e <= *b && *b
                <= 0x1f) || *b == 0x7f,
            _ => false,
        }
    }

    /// A control sequence that moves the cursor or scrolls.
    pub fn is_cursor_movement(&self) -> (r: bool)
        ensures
            r == match self {
                AnsiNode::Csi { code, .. } => is_cursor_code(*code),
                _ => false,
            },
    {
        match self {
            AnsiNode::Csi { code, .. } => {
                let c = *code;
                c == 'H' || c == 'J' || c == 'K' || c == 'A' || c == 'B' || c == 'C' || c == 'D'
                    || c == 'E' || c == 'F' || c == 'G' || c == 'S' || c == 'T' || c == 'f' || c
                    == 's' || c == 'u'
            },
            _ => false,
        }
    }
}

pub open spec fn is_cursor_code(c: char) -> bool {
    c == 'H' || c == 'J' || c == 'K' || c == 'A' || c == 'B' || c == 'C' || c == 'D' || c == 'E'
        || c == 'F' || c == 'G' || c == 'S' || c == 'T' || c == 'f' || c == 's' || c == 'u'
}

/// The input with every CR LF pair replaced by LF.
pub open spec fn crlf_normalized(b: Seq<u8>) -> Seq<u8>
    decreases b.len(),
{
    if b.len() < 2 {
        b
    } else if b[0] == 0x0d && b[1] == 0x0a {
        seq![0x0au8] + crlf_normalized(b.subrange(2, b.len() as int))
    } else {
        b.take(1) + crlf_normalized(b.subrange(1, b.len() as int))
    }
}

#[derive(Debug, Clone, Copy, PartialEq, Eq, Structural)]
pub enum Mode {
    Ground,
    Escape,
    Csi,
    Osc,
}

/// The lexer's state between two bytes.
pub struct LexState {
    pub mode: Mode,
    /// The text run not emitted yet.
    pub text: Seq<u8>,
    /// What has been emitted.
    pub out: Seq<Lexeme>,
    /// Intermediate bytes of the escape or control sequence.
    pub inter: Seq<u8>,
    /// Finished parameter groups.
    pub params: Seq<Seq<u16>>,
    /// Finished values of the current group.
    pub group: Seq<u16>,
    /// The value being read.
    pub value: u16,
    /// How many values have been kept.
    pub count: nat,
    /// Finished command string parameters.
    pub osc: Seq<Seq<u8>>,
    /// The command string parameter being read.
    pub osc_cur: Seq<u8>,
}

pub open spec fn initial_state() -> LexState {
    LexState {
        mode: Mode::Ground,
        text: Seq::empty(),
        out: Seq::empty(),
        inter: Seq::empty(),
        params: Seq::empty(),
        group: Seq::empty(),
        value: 0,
        count: 0,
        osc: Seq::empty(),
        osc_cur: Seq::empty(),
    }
}

/// The pending text run emitted, if there is one.
pub open spec fn flushed(s: LexState) -> LexState {
    if s.text.len() == 0 {
        s
    } else {
        LexState { out: s.out.push(Lexeme::Text(s.text)), text: Seq::empty(), ..s }
    }
}

/// The pending text run emitted, then `l`.
pub open spec fn emitted(s: LexState, l: Lexeme) -> LexState {
    let f = flushed(s);
    LexState { out: f.out.push(l), ..f }
}

pub open spec fn is_text_control(b: u8) -> bool {
    b == 0x0a || b == 0x0d || b == 0x09
}

/// A control byte acted on: the whitespace controls join the text run,
/// every other one stands alone.
pub open spec fn executed(s: LexState, b: u8) -> LexState {
    if is_text_control(b) {
        LexState { text: s.text.push(b), ..s }
    } else {
        emitted(s, Lexeme::ControlChar(b))
    }
}

/// The state at the start of a new escape.
pub open spec fn escape_started(s: LexState) -> LexState {
    LexState { mode: Mode::Escape, inter: Seq::empty(), ..s }
}

pub open spec fn ground_step(s: LexState, b: u8) -> LexState {
    if b == ESC {
        escape_started(s)
    } else if b < 0x20 || b == 0x7f {
        executed(s, b)
    } else {
        LexState { text: s.text.push(b), ..s }
    }
}

pub open spec fn escape_step(s: LexState, b: u8) -> LexState {
    if b == ESC {
        escape_started(s)
    } else if b == 0x18 || b == 0x1a {
        LexState { mode: Mode::Ground, ..executed(s, b) }
    } else if b < 0x20 {
        executed(s, b)
    } else if b < 0x30 {
        LexState { inter: s.inter.push(b), ..s }
    } else if b == 0x5b && s.inter.len() == 0 {
        LexState {
            mode: Mode::Csi,
            params: Seq::empty(),
            group: Seq::empty(),
            value: 0,
            count: 0,
            ..s
        }
    } else if b == 0x5d && s.inter.len() == 0 {
        LexState { mode: Mode::Osc, osc: Seq::empty(), osc_cur: Seq::empty(), ..s }
    } else {
        LexState {
            mode: Mode::Ground,
            inter: Seq::empty(),
            ..emitted(s, Lexeme::Esc { intermediates: s.inter, byte: b })
        }
    }
}

/// `v * 10 + d`, held at 65535.
pub open spec fn with_digit(v: u16, d: u8) -> u16 {
    if v * 10 + d > 0xffff {
        0xffff
    } else {
        (v * 10 + d) as u16
    }
}

/// The parameter groups of a control sequence that ends in state `s`.
pub open spec fn final_params(s: LexState) -> Seq<Seq<u16>> {
    let g = if s.count < MAX_PARAMS {
        s.group.push(s.value)
    } else {
        s.group
    };
    if g.len() > 0 {
        s.params.push(g)
    } else {
        s.params
    }
}

pub open spec fn csi_step(s: LexState, b: u8) -> LexState {
    if b == ESC {
        escape_started(s)
    } else if b == 0x18 || b == 0x1a {
        LexState { mode: Mode::Ground, ..executed(s, b) }
    } else if b < 0x20 {
        executed(s, b)
    } else if 0x30 <= b <= 0x39 {
        if s.count < MAX_PARAMS {
            LexState { value: with_digit(s.value, (b - 0x30) as u8), ..s }
        } else {
            s
        }
    } else if b == 0x3a {
        if s.count < MAX_PARAMS {
            LexState { group: s.group.push(s.value), value: 0, count: s.count + 1, ..s }
        } else {
            s
        }
    } else if b == 0x3b {
        if s.count < MAX_PARAMS {
            LexState {
                params: s.params.push(s.group.push(s.value)),
                group: Seq::empty(),
                value: 0,
                count: s.count + 1,
                ..s
            }
        } else {
            s
        }
    } else if b < 0x40 {
        LexState { inter: s.inter.push(b), ..s }
    } else if b <= 0x7e {
        LexState {
            mode: Mode::Ground,
            inter: Seq::empty(),
            params: Seq::empty(),
            group: Seq::empty(),
            ..emitted(
                s,
                Lexeme::Csi { params: final_params(s), intermediates: s.inter, code: b as char },
            )
        }
    } else {
        s
    }
}

/// The command string ended, its parameters emitted.
pub open spec fn osc_ended(s: LexState, bell: bool) -> LexState {
    LexState {
        osc: Seq::empty(),
        osc_cur: Seq::empty(),
        ..emitted(s, Lexeme::Osc { params: s.osc.push(s.osc_cur), bell_terminated: bell })
    }
}

pub open spec fn osc_step(s: LexState, b: u8) -> LexState {
    if b == BEL {
        LexState { mode: Mode::Ground, ..osc_ended(s, true) }
    } else if b == ESC {
        escape_started(osc_ended(s, false))
    } else if b == 0x18 || b == 0x1a {
        LexState { mode: Mode::Ground, ..executed(osc_ended(s, false), b) }
    } else if b == 0x3b {
        LexState { osc: s.osc.push(s.osc_cur), osc_cur: Seq::empty(), ..s }
    } else if b < 0x20 {
        s
    } else {
        LexState { osc_cur: s.osc_cur.push(b), ..s }
    }
}

/// The lexer's state after one more byte.
pub open spec fn lex_step(s: LexState, b: u8) -> LexState {
    match s.mode {
        Mode::Ground => ground_step(s, b),
        Mode::Escape => escape_step(s, b),
        Mode::Csi => csi_step(s, b),
        Mode::Osc => osc_step(s, b),
    }
}

/// The lexer's state after the bytes `bs`.
pub open spec fn lex_fold(bs: Seq<u8>) -> LexState
    decreases bs.len(),
{
    if bs.len() == 0 {
        initial_state()
    } else {
        lex_step(lex_fold(bs.drop_last()), bs.last())
    }
}

/// What the lexer emits for the bytes `bs` (after CR LF normalization).
pub open spec fn lexemes(bs: Seq<u8>) -> Seq<Lexeme> {
    flushed(lex_fold(bs)).out
}

/// The lexer at work: its state, with the nodes emitted so far.
pub struct TerminalOutputParser {
    mode: Mode,
    text: Vec<u8>,
    nodes: Vec<AnsiNode>,
    out: Ghost<Seq<Lexeme>>,
    inter: Vec<u8>,
    params: Vec<Vec<u16>>,
    group: Vec<u16>,
    value: u16,
    count: usize,
    osc: Vec<Vec<u8>>,
    osc_cur: Vec<u8>,
}

impl TerminalOutputParser {
    spec fn state(&self) -> LexState {
        LexState {
            mode: self.mode,
            text: self.text@,
            out: self.out@,
            inter: self.inter@,
            params: self.params.deep_view(),
            group: self.group@,
            value: self.value,
            count: self.count as nat,
            osc: self.osc.deep_view(),
            osc_cur: self.osc_cur@,
        }
    }

    spec fn wf(&self) -> bool {
        &&& nodes_are(self.nodes@, self.out@)
        &&& self.count <= MAX_PARAMS
    }

    fn new() -> (r: TerminalOutputParser)
        ensures
            r.wf(),
            r.state() == initial_state(),
    {
        let r = TerminalOutputParser {
            mode: Mode::Ground,
            text: Vec::new(),
            nodes: Vec::new(),
            out: Ghost(Seq::empty()),
            inter: Vec::new(),
            params: Vec::new(),
            group: Vec::new(),
            value: 0,
            count: 0,
            osc: Vec::new(),
            osc_cur: Vec::new(),
        };
        assert(r.params.deep_view() =~= Seq::<Seq<u16>>::empty());
        assert(r.osc.deep_view() =~= Seq::<Seq<u8>>::empty());
        r
    }

    /// Appends a node and its lexeme.
    fn push_node(self, n: AnsiNode, l: Ghost<Lexeme>) -> (r: TerminalOutputParser)
        requires
            self.wf(),
            node_is(n, l@),
        ensures
            r.wf(),
            r.state() == (LexState { out: self.state().out.push(l@), ..self.state() }),
    {
        let mut s = self;
        s.nodes.push(n);
        s.out = Ghost(s.out@.push(l@));
        proof {
            assert forall|i: int| 0 <= i < s.nodes@.len() implies node_is(
                #[trigger] s.nodes@[i],
                s.out@[i],
            ) by {
                if i < s.nodes@.len() - 1 {
                    assert(node_is(self.nodes@[i], self.out@[i]));
                }
            }
        }
        s
    }

    fn flush_text(self) -> (r: TerminalOutputParser)
        requires
            self.wf(),
        ensures
            r.wf(),
            r.state() == flushed(self.state()),
    {
        if self.text.len() == 0 {
            return self;
        }
        let mut s = self;
        let bytes = s.text;
        s.text = Vec::new();
        let ghost l = Lexeme::Text(bytes@);
        let text = decode_lossy(&bytes);
        let r = s.push_node(AnsiNode::Text(text), Ghost(l));
        assert(r.state() =~= flushed(self.state()));
        r
    }

    fn emit(self, n: AnsiNode, l: Ghost<Lexeme>) -> (r: TerminalOutputParser)
        requires
            self.wf(),
            node_is(n, l@),
        ensures
            r.wf(),
            r.state() == emitted(self.state(), l@),
    {
        let f = self.flush_text();
        let r = f.push_node(n, l);
        assert(r.state() =~= emitted(self.state(), l@));
        r
    }

    fn execute(self, b: u8) -> (r: TerminalOutputParser)
        requires
            self.wf(),
        ensures
            r.wf(),
            r.state() == executed(self.state(), b),
    {
        if b == 0x0a || b == 0x0d || b == 0x09 {
            let mut s = self;
            s.text.push(b);
            assert(s.state() =~= executed(self.state(), b));
            s
        } else {
            self.emit(AnsiNode::ControlChar(b), Ghost(Lexeme::ControlChar(b)))
        }
    }

    fn start_escape(self) -> (r: TerminalOutputParser)
        requires
            self.wf(),
        ensures
            r.wf(),
            r.state() == escape_started(self.state()),
    {
        let mut s = self;
        s.mode = Mode::Escape;
        s.inter = Vec::new();
        assert(s.state() =~= escape_started(self.state()));
        s
    }

    fn ground(self, b: u8) -> (r: TerminalOutputParser)
        requires
            self.wf(),
        ensures
            r.wf(),
            r.state() == ground_step(self.state(), b),
    {
        if b == ESC {
            self.start_escape()
        } else if b < 0x20 || b == 0x7f {
            self.execute(b)
        } else {
            let mut s = self;
            s.text.push(b);
            assert(s.state() =~= ground_step(self.state(), b));
            s
        }
    }

    fn escape(self, b: u8) -> (r: TerminalOutputParser)
        requires
            self.wf(),
        ensures
            r.wf(),
            r.state() == escape_step(self.state(), b),
    {
        if b == ESC {
            self.start_escape()
        } else if b == 0x18 || b == 0x1a {
            let mut s = self.execute(b);
            s.mode = Mode::Ground;
            s
        } else if b < 0x20 {
            self.execute(b)
        } else if b < 0x30 {
            let mut s = self;
            s.inter.push(b);
            assert(s.state() =~= escape_step(self.state(), b));
            s
        } else if b == 0x5b && self.inter.len() == 0 {
            let mut s = self;
            s.mode = Mode::Csi;
            s.params = Vec::new();
            s.group = Vec::new();
            s.value = 0;
            s.count = 0;
            assert(s.params.deep_view() =~= Seq::<Seq<u16>>::empty());
            assert(s.state() =~= escape_step(self.state(), b));
            s
        } else if b == 0x5d && self.inter.len() == 0 {
            let mut s = self;
            s.mode = Mode::Osc;
            s.osc = Vec::new();
            s.osc_cur = Vec::new();
            assert(s.osc.deep_view() =~= Seq::<Seq<u8>>::empty());
            assert(s.state() =~= escape_step(self.state(), b));
            s
        } else {
            let mut s = self;
            let inter = s.inter;
            s.inter = Vec::new();
            let ghost l = Lexeme::Esc { intermediates: inter@, byte: b };
            let mut r = s.emit(AnsiNode::Esc { intermediates: inter, byte: b }, Ghost(l));
            r.inter = Vec::new();
            r.mode = Mode::Ground;
            proof {
                let e = emitted(self.state(), l);
                assert(r.state() =~= LexState { mode: Mode::Ground, inter: Seq::empty(), ..e });
            }
            r
        }
    }

    fn csi(self, b: u8) -> (r: TerminalOutputParser)
        requires
            self.wf(),
        ensures
            r.wf(),
            r.state() == csi_step(self.state(), b),
    {
        if b == ESC {
            self.start_escape()
        } else if b == 0x18 || b == 0x1a {
            let mut s = self.execute(b);
            s.mode = Mode::Ground;
            s
        } else if b < 0x20 {
            self.execute(b)
        } else if 0x30 <= b && b <= 0x39 {
            if self.count < MAX_PARAMS {
                let mut s = self;
                let d = (b - 0x30) as u8;
                let v = s.value as u32 * 10 + d as u32;
                s.value = if v > 0xffff {
                    0xffff
                } else {
                    v as u16
                };
                assert(s.state() =~= csi_step(self.state(), b));
                s
            } else {
                self
            }
        } else if b == 0x3a {
            if self.count < MAX_PARAMS {
                let mut s = self;
                let v = s.value;
                s.group.push(v);
                s.value = 0;
                s.count = s.count + 1;
                assert(s.state() =~= csi_step(self.state(), b));
                s
            } else {
                self
            }
        } else if b == 0x3b {
            if self.count < MAX_PARAMS {
                let mut s = self;
                let v = s.value;
                let mut g = s.group;
                g.push(v);
                let ghost gv = g@;
                assert(g.deep_view() =~= g@);
                s.params.push(g);
                s.group = Vec::new();
                s.value = 0;
                s.count = s.count + 1;
                assert(s.params.deep_view() =~= self.params.deep_view().push(gv));
                assert(s.state() =~= csi_step(self.state(), b));
                s
            } else {
                self
            }
        } else if b < 0x40 {
            let mut s = self;
            s.inter.push(b);
            assert(s.state() =~= csi_step(self.state(), b));
            s
        } else if b <= 0x7e {
            let mut s = self;
            let mut g = s.group;
            s.group = Vec::new();
            if s.count < MAX_PARAMS {
                g.push(s.value);
            }
            let mut params = s.params;
            s.params = Vec::new();
            let ghost old_params = params.deep_view();
            if g.len() > 0 {
                let ghost gv = g@;
                assert(g.deep_view() =~= g@);
                params.push(g);
                assert(params.deep_view() =~= old_params.push(gv));
            }
            let inter = s.inter;
            s.inter = Vec::new();
            let ghost l = Lexeme::Csi {
                params: final_params(self.state()),
                intermediates: inter@,
                code: b as char,
            };
            let mut r = s.emit(
                AnsiNode::Csi { params, intermediates: inter, code: b as char },
                Ghost(l),
            );
            r.mode = Mode::Ground;
            proof {
                let e = emitted(self.state(), l);
                assert(r.params.deep_view() =~= Seq::<Seq<u16>>::empty());
                assert(r.state() =~= LexState {
                    mode: Mode::Ground,
                    inter: Seq::empty(),
                    params: Seq::empty(),
                    group: Seq::empty(),
                    ..e
                });
            }
            r
        } else {
            self
        }
    }

    fn end_osc(self, bell: bool) -> (r: TerminalOutputParser)
        requires
            self.wf(),
        ensures
            r.wf(),
            r.state() == osc_ended(self.state(), bell),
    {
        let mut s = self;
        let mut params = s.osc;
        s.osc = Vec::new();
        let cur = s.osc_cur;
        s.osc_cur = Vec::new();
        let ghost old_params = params.deep_view();
        let ghost cv = cur@;
        assert(cur.deep_view() =~= cur@);
        params.push(cur);
        assert(params.deep_view() =~= old_params.push(cv));
        let ghost l = Lexeme::Osc { params: params.deep_view(), bell_terminated: bell };
        let r = s.emit(AnsiNode::Osc { params, bell_terminated: bell }, Ghost(l));
        proof {
            assert(r.osc.deep_view() =~= Seq::<Seq<u8>>::empty());
            assert(r.state() =~= osc_ended(self.state(), bell));
        }
        r
    }

    fn osc(self, b: u8) -> (r: TerminalOutputParser)
        requires
            self.wf(),
        ensures
            r.wf(),
            r.state() == osc_step(self.state(), b),
    {
        if b == BEL {
            let mut s = self.end_osc(true);
            s.mode = Mode::Ground;
            assert(s.state() =~= osc_step(self.state(), b));
            s
        } else if b == ESC {
            let s = self.end_osc(false).start_escape();
            assert(s.state() =~= osc_step(self.state(), b));
            s
        } else if b == 0x18 || b == 0x1a {
            let mut s = self.end_osc(false).execute(b);
            s.mode = Mode::Ground;
            assert(s.state() =~= osc_step(self.state(), b));
            s
        } else if b == 0x3b {
            let mut s = self;
            let cur = s.osc_cur;
            s.osc_cur = Vec::new();
            let ghost cv = cur@;
            assert(cur.deep_view() =~= cur@);
            s.osc.push(cur);
            assert(s.osc.deep_view() =~= self.osc.deep_view().push(cv));
            assert(s.state() =~= osc_step(self.state(), b));
            s
        } else if b < 0x20 {
            self
        } else {
            let mut s = self;
            s.osc_cur.push(b);
            assert(s.state() =~= osc_step(self.state(), b));
            s
        }
    }

    fn step(self, b: u8) -> (r: TerminalOutputParser)
        requires
            self.wf(),
        ensures
            r.wf(),
            r.state() == lex_step(self.state(), b),
    {
        match self.mode {
            Mode::Ground => self.ground(b),
            Mode::Escape => self.escape(b),
            Mode::Csi => self.csi(b),
            Mode::Osc => self.osc(b),
        }
    }

    /// The input with every CR LF pair replaced by LF.
    pub fn normalize_crlf(input: &[u8]) -> (r: Vec<u8>)
        ensures
            r@ == crlf_normalized(input@),
    {
        let n = input.len();
        let mut out: Vec<u8> = Vec::new();
        let mut i: usize = 0;
        assert(input@.subrange(0, n as int) =~= input@);
        assert(out@ + crlf_normalized(input@) =~= crlf_normalized(input@));
        while i < n
            invariant
                n == input@.len(),
                i <= n,
                out@ + crlf_normalized(input@.subrange(i as int, n as int)) == crlf_normalized(
                    input@,
                ),
            decreases n - i,
        {
            let ghost rest = input@.subrange(i as int, n as int);
            let ghost before = out@;
            if i + 1 < n && input[i] == 0x0d && input[i + 1] == 0x0a {
                out.push(0x0a);
                proof {
                    assert(rest.subrange(2, rest.len() as int) =~= input@.subrange(
                        i + 2,
                        n as int,
                    ));
                    assert(out@ + crlf_normalized(input@.subrange(i + 2, n as int)) =~= before
                        + crlf_normalized(rest));
                }
                i = i + 2;
            } else {
                out.push(input[i]);
                proof {
                    if rest.len() >= 2 {
                        assert(rest.subrange(1, rest.len() as int) =~= input@.subrange(
                            i + 1,
                            n as int,
                        ));
                        assert(out@ + crlf_normalized(input@.subrange(i + 1, n as int))
                            =~= before + crlf_normalized(rest));
                    } else {
                        assert(input@.subrange(i + 1, n as int) =~= Seq::<u8>::empty());
                        assert(out@ + crlf_normalized(input@.subrange(i + 1, n as int))
                            =~= before + crlf_normalized(rest));
                    }
                }
                i = i + 1;
            }
        }
        proof {
            assert(input@.subrange(n as int, n as int) =~= Seq::<u8>::empty());
            assert(out@ =~= out@ + crlf_normalized(input@.subrange(i as int, n as int)));
        }
        out
    }

    /// Lexes terminal output into nodes. Never fails: an unfinished
    /// sequence at the end is dropped, and text that is not valid UTF-8 is
    /// decoded with replacement characters.
    pub fn parse_to_nodes(input: &[u8]) -> (r: Vec<AnsiNode>)
        ensures
            nodes_are(r@, lexemes(crlf_normalized(input@))),
    {
        let bytes = Self::normalize_crlf(input);
        let mut st = Self::new();
        let mut i: usize = 0;
        while i < bytes.len()
            invariant
                i <= bytes@.len(),
                st.wf(),
                st.state() == lex_fold(bytes@.take(i as int)),
            decreases bytes@.len() - i,
        {
            proof {
                assert(bytes@.take(i as int + 1).drop_last() =~= bytes@.take(i as int));
            }
            st = st.step(bytes[i]);
            i = i + 1;
        }
        proof {
            assert(bytes@.take(i as int) =~= bytes@);
        }
        let st = st.flush_text();
        st.nodes
    }
}

/// A byte read in mode `m` that ends up in text: outside any sequence, a
/// printable byte or a whitespace control; inside an escape or control
/// sequence, a whitespace control (which the sequence does not swallow).
pub open spec fn keeps(m: Mode, b: u8) -> bool {
    match m {
        Mode::Ground => b != ESC && (is_text_control(b) || (b >= 0x20 && b != 0x7f)),
        Mode::Escape => is_text_control(b),
        Mode::Csi => is_text_control(b),
        Mode::Osc => false,
    }
}

/// The bytes of `bs` that are not part of an escape sequence, a control
/// sequence, a command string or a standalone control.
pub open spec fn kept(bs: Seq<u8>) -> Seq<u8>
    decreases bs.len(),
{
    if bs.len() == 0 {
        Seq::empty()
    } else if keeps(lex_fold(bs.drop_last()).mode, bs.last()) {
        kept(bs.drop_last()).push(bs.last())
    } else {
        kept(bs.drop_last())
    }
}

pub open spec fn lexeme_text(l: Lexeme) -> Seq<u8> {
    match l {
        Lexeme::Text(t) => t,
        _ => Seq::empty(),
    }
}

/// The text runs of `ls`, joined.
pub open spec fn text_bytes(ls: Seq<Lexeme>) -> Seq<u8>
    decreases ls.len(),
{
    if ls.len() == 0 {
        Seq::empty()
    } else {
        text_bytes(ls.drop_last()) + lexeme_text(ls.last())
    }
}

/// Everything that has gone to text so far, emitted or pending.
pub open spec fn all_text(s: LexState) -> Seq<u8> {
    text_bytes(s.out) + s.text
}

proof fn lemma_text_bytes_push(ls: Seq<Lexeme>, l: Lexeme)
    ensures
        text_bytes(ls.push(l)) == text_bytes(ls) + lexeme_text(l),
{
    assert(ls.push(l).drop_last() =~= ls);
}

proof fn lemma_flushed_text(s: LexState)
    ensures
        all_text(flushed(s)) == all_text(s),
        flushed(s).text.len() == 0,
{
    if s.text.len() > 0 {
        lemma_text_bytes_push(s.out, Lexeme::Text(s.text));
        assert(all_text(flushed(s)) =~= all_text(s));
    } else {
        assert(all_text(s) =~= text_bytes(s.out));
    }
}

proof fn lemma_emitted_text(s: LexState, l: Lexeme)
    requires
        !(l is Text),
    ensures
        all_text(emitted(s, l)) == all_text(s),
{
    lemma_flushed_text(s);
    let f = flushed(s);
    lemma_text_bytes_push(f.out, l);
    assert(all_text(emitted(s, l)) =~= all_text(f));
}

proof fn lemma_executed_text(s: LexState, b: u8)
    ensures
        all_text(executed(s, b)) == if is_text_control(b) {
            all_text(s).push(b)
        } else {
            all_text(s)
        },
{
    if is_text_control(b) {
        assert(all_text(executed(s, b)) =~= all_text(s).push(b));
    } else {
        lemma_emitted_text(s, Lexeme::ControlChar(b));
    }
}

proof fn lemma_osc_ended_text(s: LexState, bell: bool)
    ensures
        all_text(osc_ended(s, bell)) == all_text(s),
{
    lemma_emitted_text(s, Lexeme::Osc { params: s.osc.push(s.osc_cur), bell_terminated: bell });
}

/// One byte adds itself to the text exactly when it is kept.
proof fn lemma_step_text(s: LexState, b: u8)
    ensures
        all_text(lex_step(s, b)) == if keeps(s.mode, b) {
            all_text(s).push(b)
        } else {
            all_text(s)
        },
{
    match s.mode {
        Mode::Ground => {
            if b == ESC {
            } else if b < 0x20 || b == 0x7f {
                lemma_executed_text(s, b);
            } else {
                assert(all_text(lex_step(s, b)) =~= all_text(s).push(b));
            }
        },
        Mode::Escape => {
            if b == ESC {
            } else if b == 0x18 || b == 0x1a {
                lemma_executed_text(s, b);
            } else if b < 0x20 {
                lemma_executed_text(s, b);
            } else if b < 0x30 {
            } else if b == 0x5b && s.inter.len() == 0 {
            } else if b == 0x5d && s.inter.len() == 0 {
            } else {
                lemma_emitted_text(s, Lexeme::Esc { intermediates: s.inter, byte: b });
            }
        },
        Mode::Csi => {
            if b == ESC {
            } else if b == 0x18 || b == 0x1a {
                lemma_executed_text(s, b);
            } else if b < 0x20 {
                lemma_executed_text(s, b);
            } else if b <= 0x7e && b >= 0x40 {
                lemma_emitted_text(
                    s,
                    Lexeme::Csi { params: final_params(s), intermediates: s.inter, code: b as char },
                );
            }
        },
        Mode::Osc => {
            if b == BEL {
                lemma_osc_ended_text(s, true);
            } else if b == ESC {
                lemma_osc_ended_text(s, false);
            } else if b == 0x18 || b == 0x1a {
                lemma_osc_ended_text(s, false);
                lemma_executed_text(osc_ended(s, false), b);
            }
        },
    }
}

proof fn lemma_fold_text(bs: Seq<u8>)
    ensures
        all_text(lex_fold(bs)) == kept(bs),
    decreases bs.len(),
{
    if bs.len() == 0 {
        assert(all_text(initial_state()) =~= Seq::<u8>::empty());
    } else {
        lemma_fold_text(bs.drop_last());
        lemma_step_text(lex_fold(bs.drop_last()), bs.last());
    }
}

/// The text runs that the lexer emits, joined, are the normalized input
/// with every escape sequence, control sequence, command string and
/// standalone control byte taken out.
pub proof fn lemma_text_runs_are_kept_input(input: Seq<u8>)
    ensures
        text_bytes(lexemes(crlf_normalized(input))) == kept(crlf_normalized(input)),
{
    let bs = crlf_normalized(input);
    lemma_fold_text(bs);
    lemma_flushed_text(lex_fold(bs));
    assert(text_bytes(lexemes(bs)) =~= all_text(flushed(lex_fold(bs))));
}

/// The decimal digits of `v`, most significant first.
pub open spec fn decimal(v: nat) -> Seq<u8>
    decreases v,
{
    if v < 10 {
        seq![(0x30 + v) as u8]
    } else {
        decimal(v / 10).push((0x30 + v % 10) as u8)
    }
}

/// The lexer's state after the bytes `bs`, from the state `s`.
pub open spec fn lex_run(s: LexState, bs: Seq<u8>) -> LexState
    decreases bs.len(),
{
    if bs.len() == 0 {
        s
    } else {
        lex_step(lex_run(s, bs.drop_last()), bs.last())
    }
}

proof fn lemma_run_concat(s: LexState, p: Seq<u8>, q: Seq<u8>)
    ensures
        lex_run(s, p + q) == lex_run(lex_run(s, p), q),
    decreases q.len(),
{
    if q.len() == 0 {
        assert(p + q =~= p);
    } else {
        lemma_run_concat(s, p, q.drop_last());
        assert((p + q).drop_last() =~= p + q.drop_last());
        assert((p + q).last() == q.last());
    }
}

proof fn lemma_fold_is_run(bs: Seq<u8>)
    ensures
        lex_fold(bs) == lex_run(initial_state(), bs),
    decreases bs.len(),
{
    if bs.len() > 0 {
        lemma_fold_is_run(bs.drop_last());
    }
}

/// Inside a control sequence with room for another value, the digits of
/// `v` make the value being read `v`.
proof fn lemma_digits(s: LexState, v: nat)
    requires
        s.mode == Mode::Csi,
        s.count < MAX_PARAMS,
        s.value == 0,
        v <= 0xffff,
    ensures
        lex_run(s, decimal(v)) == (LexState { value: v as u16, ..s }),
    decreases v,
{
    if v < 10 {
        let d = (0x30 + v) as u8;
        assert(decimal(v).drop_last() =~= Seq::<u8>::empty());
        assert(decimal(v).last() == d);
        assert(lex_run(s, Seq::<u8>::empty()) == s);
        assert(lex_run(s, decimal(v)) == lex_step(s, d));
        assert(with_digit(0, (d - 0x30) as u8) == v as u16);
        assert(lex_step(s, d) == LexState { value: with_digit(0, (d - 0x30) as u8), ..s });
    } else {
        lemma_digits(s, v / 10);
        let d = (0x30 + v % 10) as u8;
        let prev = LexState { value: (v / 10) as u16, ..s };
        assert(decimal(v).drop_last() =~= decimal(v / 10));
        assert(decimal(v).last() == d);
        assert(lex_run(s, decimal(v)) == lex_step(prev, d));
        assert((v / 10) * 10 + v % 10 == v);
        assert(0x30 <= d <= 0x39);
        assert((d - 0x30) as u8 == v % 10);
        assert(with_digit((v / 10) as u16, (d - 0x30) as u8) == v as u16);
        assert(lex_step(prev, d) == LexState {
            value: with_digit((v / 10) as u16, (d - 0x30) as u8),
            ..prev
        });
    }
}

/// A control sequence whose two values are joined by a colon lexes to one
/// parameter group that holds both values, in order.
pub proof fn lemma_subparameters_grouped(a: u16, b: u16, f: u8)
    requires
        0x40 <= f <= 0x7e,
    ensures
        lexemes(seq![ESC, 0x5b] + decimal(a as nat) + seq![0x3au8] + decimal(b as nat) + seq![f])
            == seq![
            Lexeme::Csi {
                params: seq![seq![a, b]],
                intermediates: Seq::empty(),
                code: f as char,
            },
        ],
{
    let intro = seq![ESC, 0x5bu8];
    let da = decimal(a as nat);
    let db = decimal(b as nat);
    let bs = intro + da + seq![0x3au8] + db + seq![f];
    let s0 = initial_state();
    assert(intro.drop_last() =~= seq![ESC]);
    assert(seq![ESC].drop_last() =~= Seq::<u8>::empty());
    let s1 = lex_run(s0, seq![ESC]);
    assert(lex_run(s0, Seq::<u8>::empty()) == s0);
    assert(s1 == lex_step(s0, ESC));
    assert(s1.mode == Mode::Escape && s1.inter.len() == 0 && s1.text.len() == 0 && s1.out.len()
        == 0);
    let s2 = lex_run(s0, intro);
    assert(s2 == lex_step(s1, 0x5b));
    assert(s2.mode == Mode::Csi && s2.params.len() == 0 && s2.group.len() == 0 && s2.value == 0
        && s2.count == 0 && s2.text.len() == 0 && s2.out.len() == 0 && s2.inter.len() == 0);
    lemma_digits(s2, a as nat);
    let s3 = lex_run(s2, da);
    lemma_run_concat(s0, intro, da);
    let s4 = lex_run(s3, seq![0x3au8]);
    assert(seq![0x3au8].drop_last() =~= Seq::<u8>::empty());
    assert(lex_run(s3, Seq::<u8>::empty()) == s3);
    assert(s4 == lex_step(s3, 0x3a));
    assert(s4.group =~= seq![a] && s4.value == 0 && s4.count == 1 && s4.mode == Mode::Csi);
    lemma_run_concat(s0, intro + da, seq![0x3au8]);
    lemma_digits(s4, b as nat);
    let s5 = lex_run(s4, db);
    lemma_run_concat(s0, intro + da + seq![0x3au8], db);
    let s6 = lex_run(s5, seq![f]);
    assert(seq![f].drop_last() =~= Seq::<u8>::empty());
    assert(lex_run(s5, Seq::<u8>::empty()) == s5);
    assert(s6 == lex_step(s5, f));
    lemma_run_concat(s0, intro + da + seq![0x3au8] + db, seq![f]);
    lemma_fold_is_run(bs);
    assert(s5.group.push(s5.value) =~= seq![a, b]);
    assert(final_params(s5) =~~= seq![seq![a, b]]);
    assert(s6.out =~~= seq![
        Lexeme::Csi { params: seq![seq![a, b]], intermediates: Seq::empty(), code: f as char },
    ]);
}

} // verus!
