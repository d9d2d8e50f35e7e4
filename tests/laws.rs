use shellvetica::nodes::{AnsiNode, TerminalOutputParser};
use shellvetica::runs::{optimize, Mark};
use shellvetica::shellvetica::{Color as Named, Shellvetica, Token};
use shellvetica::styles::{Color, EightBitColor, Font, StyleNode, UnderlineStyle};

fn joined_text(nodes: &[AnsiNode]) -> String {
	let mut s = String::new();
	for n in nodes {
		if let AnsiNode::Text(t) = n {
			s.push_str(t);
		}
	}
	s
}

#[test]
fn text_runs_drop_every_sequence() {
	let nodes = TerminalOutputParser::parse_to_nodes(b"a\x1B[31mb\x1B]0;title\x07c\x07d\r\ne\x1BZf");
	assert_eq!(joined_text(&nodes), "abcd\nef");
}

#[test]
fn text_runs_keep_whitespace_inside_sequences() {
	assert_eq!(
		TerminalOutputParser::parse_to_nodes(b"\x1B[3\n1m"),
		vec![
			AnsiNode::Text(String::from("\n")),
			AnsiNode::Csi {
				params: vec![vec![31]],
				intermediates: vec![],
				code: 'm',
			},
		]
	);
}

#[test]
fn colon_values_form_one_group() {
	assert_eq!(
		TerminalOutputParser::parse_to_nodes(b"\x1B[4:3m"),
		vec![AnsiNode::Csi {
			params: vec![vec![4, 3]],
			intermediates: vec![],
			code: 'm',
		}]
	);
	assert_eq!(
		TerminalOutputParser::parse_to_nodes(b"\x1B[58:2:10:20:30;1m"),
		vec![AnsiNode::Csi {
			params: vec![vec![58, 2, 10, 20, 30], vec![1]],
			intermediates: vec![],
			code: 'm',
		}]
	);
}

#[test]
fn lexer_edge_cases() {
	assert_eq!(TerminalOutputParser::parse_to_nodes(b""), vec![]);
	assert_eq!(
		TerminalOutputParser::parse_to_nodes(b"a\x1B[3\x18b"),
		vec![
			AnsiNode::Text(String::from("a")),
			AnsiNode::ControlChar(0x18),
			AnsiNode::Text(String::from("b")),
		]
	);
	assert_eq!(
		TerminalOutputParser::parse_to_nodes(b"\x1B(B"),
		vec![AnsiNode::Esc {
			intermediates: vec![b'('],
			byte: b'B',
		}]
	);
	assert_eq!(
		TerminalOutputParser::parse_to_nodes(b"x\x7fy"),
		vec![
			AnsiNode::Text(String::from("x")),
			AnsiNode::ControlChar(0x7f),
			AnsiNode::Text(String::from("y")),
		]
	);
	assert_eq!(
		TerminalOutputParser::parse_to_nodes(b"\xFFa"),
		vec![AnsiNode::Text(String::from("\u{FFFD}a"))]
	);
	assert_eq!(TerminalOutputParser::parse_to_nodes(b"\x1B]8;;x"), vec![]);
	assert_eq!(TerminalOutputParser::normalize_crlf(b"a\r\n\r\r\nb\n\r"), b"a\n\r\nb\n\r".to_vec());
}

#[test]
fn node_predicates() {
	assert!(AnsiNode::Text(String::new()).is_zero_width());
	assert!(!AnsiNode::Text(String::from("x")).is_zero_width());
	assert!(AnsiNode::ControlChar(0x07).is_zero_width());
	assert!(!AnsiNode::ControlChar(0x0a).is_zero_width());
	let nodes = TerminalOutputParser::parse_to_nodes(b"\x1B[2J\x1B[31m");
	assert!(nodes[0].is_cursor_movement());
	assert!(!nodes[1].is_cursor_movement());
}

#[test]
fn bold_bright_symmetry_on_values() {
	for n in 0..8u16 {
		let s = StyleNode::from_ansi_node(&[vec![1], vec![30 + n], vec![22]]);
		assert_eq!(s.foreground, Some(Color::Standard(EightBitColor::from_u8(n as u8))));
		let s = StyleNode::from_ansi_node(&[vec![90 + n], vec![1], vec![22]]);
		assert_eq!(s.foreground, Some(Color::Bright(EightBitColor::from_u8(n as u8))));
	}
	assert_eq!(
		StyleNode::from_ansi_node(&[vec![1], vec![31], vec![91], vec![1], vec![22]]).foreground,
		Some(Color::Bright(EightBitColor::Red))
	);
	assert_eq!(
		StyleNode::from_ansi_node(&[vec![1], vec![41], vec![22]]).background,
		Some(Color::Standard(EightBitColor::Red))
	);
}

#[test]
fn reset_discards_everything_before() {
	assert_eq!(
		StyleNode::from_ansi_node(&[vec![1], vec![31], vec![4, 3], vec![0], vec![3]]),
		StyleNode {
			italic: true,
			..StyleNode::default()
		}
	);
	let mut s = StyleNode::from_ansi_node(&[vec![7], vec![45]]);
	s.apply(&vec![0]);
	assert_eq!(s, StyleNode::default());
}

#[test]
fn unknown_codes_change_nothing() {
	let base = StyleNode::from_ansi_node(&[vec![1], vec![32]]);
	for code in [56u16, 60, 76, 89, 98, 108, 9999, 65535] {
		let mut s = base;
		s.apply(&vec![code]);
		assert_eq!(s, base);
	}
	let mut s = base;
	s.apply(&vec![]);
	assert_eq!(s, base);
	assert_eq!(StyleNode::from_ansi_node(&[vec![38]]), StyleNode::default());
}

#[test]
fn positional_defaults_and_clamps() {
	assert_eq!(StyleNode::from_ansi_node(&[vec![38, 5]]).foreground, Some(Color::Palette(0)));
	assert_eq!(
		StyleNode::from_ansi_node(&[vec![48, 2, 300, 7]]).background,
		Some(Color::Rgb { r: 255, g: 7, b: 0 })
	);
	assert_eq!(StyleNode::from_ansi_node(&[vec![4, 9]]).underline, Some(UnderlineStyle::Single));
	assert_eq!(StyleNode::from_ansi_node(&[vec![4], vec![24]]).underline, None);
	assert_eq!(StyleNode::from_ansi_node(&[vec![12]]).font, Some(Font::Two));
	assert_eq!(StyleNode::from_ansi_node(&[vec![12], vec![10]]).font, None);
	assert_eq!(Font::from_u8(9), Some(Font::Nine));
	assert_eq!(Font::from_u8(10), None);
	assert_eq!(EightBitColor::from_u8(8), EightBitColor::Black);
}

fn fg_html(c: Color) -> String {
	StyleNode {
		foreground: Some(c),
		..StyleNode::default()
	}
	.to_html()
}

#[test]
fn palette_conversion() {
	assert_eq!(fg_html(Color::Palette(5)), "<span style=\"color:#cd00cd;\">");
	assert_eq!(fg_html(Color::Palette(12)), "<span style=\"color:#5c5cff;\">");
	assert_eq!(fg_html(Color::Palette(190)), "<span style=\"color:#cf0;\">");
	assert_eq!(fg_html(Color::Palette(245)), "<span style=\"color:#8a8a8a;\">");
	assert_eq!(fg_html(Color::Palette(16)), "<span style=\"color:#000;\">");
	assert_eq!(fg_html(Color::Palette(231)), "<span style=\"color:#fff;\">");
	assert_eq!(fg_html(Color::Palette(232)), "<span style=\"color:#080808;\">");
	assert_eq!(fg_html(Color::Palette(255)), "<span style=\"color:#eee;\">");
	assert_eq!(fg_html(Color::Palette(7)), "<span style=\"color:#e5e5e5;\">");
	assert_eq!(fg_html(Color::Rgb { r: 1, g: 2, b: 3 }), "<span style=\"color:#010203;\">");
}

#[test]
fn html_declarations_in_order() {
	let s = StyleNode::from_ansi_node(&[vec![1], vec![2], vec![3], vec![4, 2], vec![58, 5, 9], vec![7], vec![31], vec![44]]);
	assert_eq!(
		s.to_html(),
		"<span style=\"font-weight:bold;opacity:.5;font-style:italic;text-decoration:underline double;text-decoration-color:#f00;color:#5c5cff;background:#f00;\">"
	);
	assert_eq!(s.foreground, Some(Color::Bright(EightBitColor::Red)));
	assert_eq!(s.background, Some(Color::Bright(EightBitColor::Blue)));
	let sup = StyleNode::from_ansi_node(&[vec![73]]);
	assert_eq!(sup.close_html(), "</sup>");
	assert_eq!(StyleNode::default().close_html(), "</span>");
}

#[test]
fn optimizer_is_idempotent_on_values() {
	let input = vec![
		Mark::Open(1),
		Mark::Glyph('a'),
		Mark::Close,
		Mark::Glyph(' '),
		Mark::Open(1),
		Mark::Glyph('b'),
		Mark::Open(2),
		Mark::Glyph('c'),
		Mark::Close,
		Mark::Close,
		Mark::Glyph(' '),
	];
	let once = optimize(&input);
	assert_eq!(
		once,
		vec![
			Mark::Open(1),
			Mark::Glyph('a'),
			Mark::Glyph(' '),
			Mark::Glyph('b'),
			Mark::Close,
			Mark::Open(2),
			Mark::Glyph('c'),
			Mark::Close,
			Mark::Glyph(' '),
		]
	);
	assert_eq!(optimize(&once), once);
	let tokens = vec![Token::Color(Named::Red), Token::Text('x'), Token::Color(Named::Blue), Token::Text('y')];
	let once = Shellvetica::optimize_ast(&tokens);
	assert_eq!(Shellvetica::optimize_ast(&once), once);
}

#[test]
fn whitespace_between_same_color_joins_one_span() {
	let tokens = vec![
		Token::Color(Named::Green),
		Token::Text('a'),
		Token::Close,
		Token::Text(' '),
		Token::Text('\t'),
		Token::Text('\n'),
		Token::Color(Named::Green),
		Token::Text('b'),
		Token::Close,
	];
	assert_eq!(
		Shellvetica::optimize_ast(&tokens),
		vec![
			Token::Color(Named::Green),
			Token::Text('a'),
			Token::Text(' '),
			Token::Text('\t'),
			Token::Text('\n'),
			Token::Text('b'),
			Token::Close,
		]
	);
}

#[test]
fn optimizer_never_nests_or_leaves_empty_scopes() {
	assert_eq!(
		Shellvetica::optimize_ast(&vec![Token::Color(Named::Red), Token::Text('A'), Token::Color(Named::Blue), Token::Text('B')]),
		vec![
			Token::Color(Named::Red),
			Token::Text('A'),
			Token::Close,
			Token::Color(Named::Blue),
			Token::Text('B'),
			Token::Close,
		]
	);
	assert_eq!(Shellvetica::optimize_ast(&vec![Token::Color(Named::Red), Token::Close]), vec![]);
	assert_eq!(Shellvetica::optimize_ast(&vec![]), vec![]);
}

#[test]
fn shellvetica_export_and_odd_sequences() {
	assert_eq!(Shellvetica::convert("\x1B[31mtest\x1B[39m").export(), "<span style=\"color:red\">test</span>");
	assert_eq!(Shellvetica::str_2_ast("\x1BZ"), vec![Token::Text('\x1b'), Token::Text('Z')]);
	assert_eq!(Shellvetica::str_2_ast("\x1B[38;5;1"), vec![Token::Color(Named::Black)]);
	assert_eq!(Shellvetica::str_2_ast("\x1B[2Jx"), vec![Token::Color(Named::Black), Token::Text('x')]);
}
