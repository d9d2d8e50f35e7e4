use shellvetica::markup::{render, resolve};
use shellvetica::nodes::TerminalOutputParser;
use shellvetica::styles::{Color, EightBitColor, StyleNode};

#[test]
fn render_red_text_one_span() {
	assert_eq!(render(b"\x1B[31mtest\x1B[39m"), "<span style=\"color:#cd0000;\">test</span>");
}

#[test]
fn render_plain_text_has_no_span() {
	assert_eq!(render(b"plain text"), "plain text");
	assert_eq!(render(b""), "");
}

#[test]
fn render_bridges_whitespace_between_same_style() {
	assert_eq!(
		render(b"\x1B[31mA\x1B[0m   \x1B[31mB\x1B[0m"),
		"<span style=\"color:#cd0000;\">A   B</span>"
	);
}

#[test]
fn render_keeps_unstyled_word_between_styles() {
	assert_eq!(
		render(b"\x1B[32mA\x1B[0m x \x1B[32mB\x1B[0m"),
		"<span style=\"color:#00cd00;\">A</span> x <span style=\"color:#00cd00;\">B</span>"
	);
}

#[test]
fn render_bold_bright_and_sub() {
	assert_eq!(
		render(b"\x1B[1;34mhi\x1B[74mlo"),
		"<span style=\"font-weight:bold;color:#5c5cff;\">hi</span><sub style=\"font-weight:bold;color:#5c5cff;\">lo</sub>"
	);
}

#[test]
fn resolve_carries_style_per_node() {
	let nodes = TerminalOutputParser::parse_to_nodes(b"a\x1B[31mb\x1B[0mc");
	let styles = resolve(&nodes);
	assert_eq!(styles.len(), 5);
	assert_eq!(styles[0], StyleNode::default());
	assert_eq!(
		styles[2],
		StyleNode {
			foreground: Some(Color::Standard(EightBitColor::Red)),
			..StyleNode::default()
		}
	);
	assert_eq!(styles[4], StyleNode::default());
}
