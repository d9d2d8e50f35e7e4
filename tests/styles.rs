use shellvetica::styles::{Color, EightBitColor, StyleNode, UnderlineStyle};

#[test]
fn styles_convert_test() {
	assert_eq!(StyleNode::from_ansi_node(&[vec![0]]), StyleNode::default(),);
	assert_eq!(
		StyleNode::from_ansi_node(&[vec![1]]),
		StyleNode {
			bold: true,
			..StyleNode::default()
		},
	);
	assert_eq!(
		StyleNode::from_ansi_node(&[vec![2]]),
		StyleNode {
			dim: true,
			..StyleNode::default()
		},
	);
	assert_eq!(
		StyleNode::from_ansi_node(&[vec![3]]),
		StyleNode {
			italic: true,
			..StyleNode::default()
		},
	);
	assert_eq!(
		StyleNode::from_ansi_node(&[vec![4]]),
		StyleNode {
			underline: Some(UnderlineStyle::Single),
			..StyleNode::default()
		},
	);
	assert_eq!(
		StyleNode::from_ansi_node(&[vec![4, 0], vec![31]]),
		StyleNode {
			foreground: Some(Color::Standard(EightBitColor::from_u8(1))),
			..StyleNode::default()
		}
	);
	assert_eq!(
		StyleNode::from_ansi_node(&[vec![4, 1]]),
		StyleNode {
			underline: Some(UnderlineStyle::Single),
			..StyleNode::default()
		},
	);
	assert_eq!(
		StyleNode::from_ansi_node(&[vec![4, 2]]),
		StyleNode {
			underline: Some(UnderlineStyle::Double),
			..StyleNode::default()
		},
	);
	assert_eq!(
		StyleNode::from_ansi_node(&[vec![4, 3]]),
		StyleNode {
			underline: Some(UnderlineStyle::Curly),
			..StyleNode::default()
		},
	);
	assert_eq!(
		StyleNode::from_ansi_node(&[vec![4, 4]]),
		StyleNode {
			underline: Some(UnderlineStyle::Dotted),
			..StyleNode::default()
		},
	);
	assert_eq!(
		StyleNode::from_ansi_node(&[vec![4, 5]]),
		StyleNode {
			underline: Some(UnderlineStyle::Dashed),
			..StyleNode::default()
		},
	);
	assert_eq!(
		StyleNode::from_ansi_node(&[vec![5]]),
		StyleNode {
			blink: true,
			..StyleNode::default()
		},
	);
	assert_eq!(
		StyleNode::from_ansi_node(&[vec![7]]),
		StyleNode {
			reverse: true,
			..StyleNode::default()
		},
	);
	assert_eq!(
		StyleNode::from_ansi_node(&[vec![8]]),
		StyleNode {
			hidden: true,
			..StyleNode::default()
		},
	);
	assert_eq!(
		StyleNode::from_ansi_node(&[vec![9]]),
		StyleNode {
			strikethrough: true,
			..StyleNode::default()
		},
	);
}

#[test]
fn standard_foreground_color_convert_test() {
	assert_eq!(
		StyleNode::from_ansi_node(&[vec![30]]),
		StyleNode {
			foreground: Some(Color::Standard(EightBitColor::from_u8(0))),
			..StyleNode::default()
		},
	);
	assert_eq!(
		StyleNode::from_ansi_node(&[vec![31]]),
		StyleNode {
			foreground: Some(Color::Standard(EightBitColor::from_u8(1))),
			..StyleNode::default()
		},
	);
	assert_eq!(
		StyleNode::from_ansi_node(&[vec![32]]),
		StyleNode {
			foreground: Some(Color::Standard(EightBitColor::from_u8(2))),
			..StyleNode::default()
		},
	);
	assert_eq!(
		StyleNode::from_ansi_node(&[vec![33]]),
		StyleNode {
			foreground: Some(Color::Standard(EightBitColor::from_u8(3))),
			..StyleNode::default()
		},
	);
	assert_eq!(
		StyleNode::from_ansi_node(&[vec![34]]),
		StyleNode {
			foreground: Some(Color::Standard(EightBitColor::from_u8(4))),
			..StyleNode::default()
		},
	);
	assert_eq!(
		StyleNode::from_ansi_node(&[vec![35]]),
		StyleNode {
			foreground: Some(Color::Standard(EightBitColor::from_u8(5))),
			..StyleNode::default()
		},
	);
	assert_eq!(
		StyleNode::from_ansi_node(&[vec![36]]),
		StyleNode {
			foreground: Some(Color::Standard(EightBitColor::from_u8(6))),
			..StyleNode::default()
		},
	);
	assert_eq!(
		StyleNode::from_ansi_node(&[vec![37]]),
		StyleNode {
			foreground: Some(Color::Standard(EightBitColor::from_u8(7))),
			..StyleNode::default()
		},
	);
}

#[test]
fn bright_foreground_color_convert_test() {
	assert_eq!(
		StyleNode::from_ansi_node(&[vec![30], vec![1]]),
		StyleNode {
			bold: true,
			foreground: Some(Color::Bright(EightBitColor::from_u8(0))),
			fg_bright_from_bold: true,
			..StyleNode::default()
		},
	);
	assert_eq!(
		StyleNode::from_ansi_node(&[vec![31], vec![1]]),
		StyleNode {
			bold: true,
			foreground: Some(Color::Bright(EightBitColor::from_u8(1))),
			fg_bright_from_bold: true,
			..StyleNode::default()
		},
	);
	assert_eq!(
		StyleNode::from_ansi_node(&[vec![32], vec![1]]),
		StyleNode {
			bold: true,
			foreground: Some(Color::Bright(EightBitColor::from_u8(2))),
			fg_bright_from_bold: true,
			..StyleNode::default()
		},
	);
	assert_eq!(
		StyleNode::from_ansi_node(&[vec![33], vec![1]]),
		StyleNode {
			bold: true,
			foreground: Some(Color::Bright(EightBitColor::from_u8(3))),
			fg_bright_from_bold: true,
			..StyleNode::default()
		},
	);
	assert_eq!(
		StyleNode::from_ansi_node(&[vec![34], vec![1]]),
		StyleNode {
			bold: true,
			foreground: Some(Color::Bright(EightBitColor::from_u8(4))),
			fg_bright_from_bold: true,
			..StyleNode::default()
		},
	);
	assert_eq!(
		StyleNode::from_ansi_node(&[vec![35], vec![1]]),
		StyleNode {
			bold: true,
			foreground: Some(Color::Bright(EightBitColor::from_u8(5))),
			fg_bright_from_bold: true,
			..StyleNode::default()
		},
	);
	assert_eq!(
		StyleNode::from_ansi_node(&[vec![36], vec![1]]),
		StyleNode {
			bold: true,
			foreground: Some(Color::Bright(EightBitColor::from_u8(6))),
			fg_bright_from_bold: true,
			..StyleNode::default()
		},
	);
	assert_eq!(
		StyleNode::from_ansi_node(&[vec![37], vec![1]]),
		StyleNode {
			bold: true,
			foreground: Some(Color::Bright(EightBitColor::from_u8(7))),
			fg_bright_from_bold: true,
			..StyleNode::default()
		},
	);
}

#[test]
fn bold_bright_interaction_test() {
	// Bold then color should give bright
	assert_eq!(
		StyleNode::from_ansi_node(&[vec![1], vec![31]]),
		StyleNode {
			bold: true,
			fg_bright_from_bold: true,
			foreground: Some(Color::Bright(EightBitColor::from_u8(1))),
			..StyleNode::default()
		}
	);

	// Color with bold modifier should give bright
	assert_eq!(
		StyleNode::from_ansi_node(&[vec![31], vec![1]]),
		StyleNode {
			bold: true,
			fg_bright_from_bold: true,
			foreground: Some(Color::Bright(EightBitColor::from_u8(1))),
			..StyleNode::default()
		}
	);

	// Explicit bright should stay bright even after removing bold
	assert_eq!(
		StyleNode::from_ansi_node(&[vec![91]]),
		StyleNode {
			foreground: Some(Color::Bright(EightBitColor::from_u8(1))),
			..StyleNode::default()
		}
	);

	// Apply and remove bold - explicit bright should remain
	assert_eq!(
		StyleNode::from_ansi_node(&[vec![91], vec![1], vec![22]]),
		StyleNode {
			foreground: Some(Color::Bright(EightBitColor::from_u8(1))),
			..StyleNode::default()
		}
	);
}

#[test]
fn bold_then_color_then_reset_test() {
	// Apply bold, then color, then remove bold - color should downgrade
	assert_eq!(
		StyleNode::from_ansi_node(&[vec![1], vec![31], vec![22]]),
		StyleNode {
			foreground: Some(Color::Standard(EightBitColor::from_u8(1))),
			..StyleNode::default()
		}
	);

	// Compare with explicit bright color which should NOT downgrade
	assert_eq!(
		StyleNode::from_ansi_node(&[vec![91], vec![22]]),
		StyleNode {
			foreground: Some(Color::Bright(EightBitColor::from_u8(1))),
			..StyleNode::default()
		}
	);
}

#[test]
fn bold_after_256_color_test() {
	// Bold shouldn't affect 256 colors
	assert_eq!(
		StyleNode::from_ansi_node(&[vec![38, 5, 196], vec![1]]),
		StyleNode {
			bold: true,
			foreground: Some(Color::Palette(196)),
			..StyleNode::default()
		}
	);
}

#[test]
fn bold_after_rgb_color_test() {
	// Bold shouldn't affect RGB colors
	assert_eq!(
		StyleNode::from_ansi_node(&[vec![38, 2, 255, 0, 0], vec![1]]),
		StyleNode {
			bold: true,
			foreground: Some(Color::Rgb { r: 255, g: 0, b: 0 }),
			..StyleNode::default()
		}
	);
}

#[test]
fn sgr_22_with_bold_and_dim_test() {
	// SGR 22 should reset both bold and dim
	assert_eq!(StyleNode::from_ansi_node(&[vec![1], vec![2], vec![22]]), StyleNode::default());
}

#[test]
fn sgr_22_preserves_other_attributes_test() {
	// SGR 22 should only affect bold/dim
	assert_eq!(
		StyleNode::from_ansi_node(&[vec![1], vec![3], vec![4], vec![22]]),
		StyleNode {
			italic: true,
			underline: Some(UnderlineStyle::Single),
			..StyleNode::default()
		}
	);
}

#[test]
fn underline_color_test() {
	// 256 color underline
	assert_eq!(
		StyleNode::from_ansi_node(&[vec![58, 5, 196]]),
		StyleNode {
			underline_color: Some(Color::Palette(196)),
			..StyleNode::default()
		}
	);

	// RGB underline
	assert_eq!(
		StyleNode::from_ansi_node(&[vec![58, 2, 255, 0, 128]]),
		StyleNode {
			underline_color: Some(Color::Rgb { r: 255, g: 0, b: 128 }),
			..StyleNode::default()
		}
	);

	// Reset underline color
	assert_eq!(StyleNode::from_ansi_node(&[vec![58, 5, 196], vec![59]]), StyleNode::default());
}

#[test]
fn subscript_superscript_test() {
	// Superscript
	assert_eq!(
		StyleNode::from_ansi_node(&[vec![73]]),
		StyleNode {
			superscript: true,
			..StyleNode::default()
		}
	);

	// Subscript
	assert_eq!(
		StyleNode::from_ansi_node(&[vec![74]]),
		StyleNode {
			subscript: true,
			..StyleNode::default()
		}
	);

	// Superscript overrides subscript
	assert_eq!(
		StyleNode::from_ansi_node(&[vec![74], vec![73]]),
		StyleNode {
			superscript: true,
			subscript: false,
			..StyleNode::default()
		}
	);

	// Reset both
	assert_eq!(StyleNode::from_ansi_node(&[vec![73], vec![75]]), StyleNode::default());
}

#[test]
fn to_html_test() {
	// Standard colors
	assert_eq!(
		StyleNode {
			foreground: Some(Color::Standard(EightBitColor::Black)),
			..StyleNode::default()
		}
		.to_html(),
		String::from("<span style=\"color:#000;\">")
	);

	// Bright colors
	assert_eq!(
		StyleNode {
			foreground: Some(Color::Bright(EightBitColor::Blue)),
			..StyleNode::default()
		}
		.to_html(),
		String::from("<span style=\"color:#5c5cff;\">")
	);

	// Palette colors
	assert_eq!(
		StyleNode {
			foreground: Some(Color::Palette(5)),
			..StyleNode::default()
		}
		.to_html(),
		String::from("<span style=\"color:#cd00cd;\">")
	);
	assert_eq!(
		StyleNode {
			foreground: Some(Color::Palette(12)),
			..StyleNode::default()
		}
		.to_html(),
		String::from("<span style=\"color:#5c5cff;\">")
	);
	assert_eq!(
		StyleNode {
			foreground: Some(Color::Palette(190)),
			..StyleNode::default()
		}
		.to_html(),
		String::from("<span style=\"color:#cf0;\">")
	);
	assert_eq!(
		StyleNode {
			foreground: Some(Color::Palette(245)),
			..StyleNode::default()
		}
		.to_html(),
		String::from("<span style=\"color:#8a8a8a;\">")
	);

	// RGB colors
	assert_eq!(
		StyleNode {
			foreground: Some(Color::Rgb { r: 255, g: 0, b: 128 }),
			..StyleNode::default()
		}
		.to_html(),
		String::from("<span style=\"color:#ff0080;\">")
	);
	assert_eq!(
		StyleNode {
			foreground: Some(Color::Rgb { r: 17, g: 34, b: 51 }),
			..StyleNode::default()
		}
		.to_html(),
		String::from("<span style=\"color:#123;\">")
	);
}
