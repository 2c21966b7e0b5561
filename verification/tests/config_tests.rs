use lumiterm::config::{
    color_of, colors_ok, config_colors, get_section, hex_color_ok, hex_to_rgb, is_float_text, parse,
    terminal_palette, Value,
};

fn s(x: &str) -> String {
    x.to_string()
}

fn get<'a>(m: &'a [(String, Value)], k: &str) -> Option<&'a Value> {
    m.iter().find(|(key, _)| key == k).map(|(_, v)| v)
}

const SAMPLE: &str = "# lumiterm config\n\
window {\n\
    width: 1000\n\
    height: 650\n\
    opacity: 0.95\n\
    padding: 8\n\
}\n\
\n\
font {\n\
    path: \"/usr/share/fonts/TTF/JetBrainsMonoNerdFont-Regular.ttf\"\n\
    size: 14\n\
}\n\
\n\
colors {\n\
    background: #1e1e2e\n\
    foreground: #cdd6f4\n\
    # a comment between statements\n\
    black: #45475a\n\
}\n\
\n\
shell {\n\
    program: \"/bin/bash\"\n\
}\n";

#[test]
fn parses_the_sample_config() {
    let tree = parse(SAMPLE);
    assert_eq!(tree.len(), 4);
    let window = get_section(&tree, "window").unwrap();
    assert_eq!(get(window, "width"), Some(&Value::Num(s("1000"))));
    assert_eq!(get(window, "height"), Some(&Value::Num(s("650"))));
    assert_eq!(get(window, "opacity"), Some(&Value::Num(s("0.95"))));
    assert_eq!(get(window, "padding"), Some(&Value::Num(s("8"))));
    let font = get_section(&tree, "font").unwrap();
    assert_eq!(
        get(font, "path"),
        Some(&Value::Str(s("/usr/share/fonts/TTF/JetBrainsMonoNerdFont-Regular.ttf")))
    );
    assert_eq!(get(font, "size"), Some(&Value::Num(s("14"))));
    let colors = get_section(&tree, "colors").unwrap();
    assert_eq!(colors.len(), 3);
    assert_eq!(get(colors, "background"), Some(&Value::Str(s("#1e1e2e"))));
    assert_eq!(get(colors, "black"), Some(&Value::Str(s("#45475a"))));
    let shell = get_section(&tree, "shell").unwrap();
    assert_eq!(get(shell, "program"), Some(&Value::Str(s("/bin/bash"))));
}

#[test]
fn hex_color_is_a_value_not_a_comment() {
    let tree = parse("colors {\n  background:   #1e1e2e   \n}\n");
    let colors = get_section(&tree, "colors").unwrap();
    assert_eq!(get(colors, "background"), Some(&Value::Str(s("#1e1e2e"))));
}

#[test]
fn comments_between_statements_are_skipped() {
    let tree = parse("# top\n  # indented\na: 1\n# b: 2\nc: x # not a comment\n");
    assert_eq!(tree.len(), 2);
    assert_eq!(get(&tree, "a"), Some(&Value::Num(s("1"))));
    assert_eq!(get(&tree, "b"), None);
    assert_eq!(get(&tree, "c"), Some(&Value::Str(s("x # not a comment"))));
}

#[test]
fn numbers_and_strings() {
    let tree = parse("a: -.5\nb: 1e3\nc: 1e\nd: inf\ne: NaN\nf: .\ng: +2.\nh: 0x10\ni:\nj: Infinity\n");
    assert_eq!(get(&tree, "a"), Some(&Value::Num(s("-.5"))));
    assert_eq!(get(&tree, "b"), Some(&Value::Num(s("1e3"))));
    assert_eq!(get(&tree, "c"), Some(&Value::Str(s("1e"))));
    assert_eq!(get(&tree, "d"), Some(&Value::Num(s("inf"))));
    assert_eq!(get(&tree, "e"), Some(&Value::Num(s("NaN"))));
    assert_eq!(get(&tree, "f"), Some(&Value::Str(s("."))));
    assert_eq!(get(&tree, "g"), Some(&Value::Num(s("+2."))));
    assert_eq!(get(&tree, "h"), Some(&Value::Str(s("0x10"))));
    // white space before a value includes line feeds: an empty value takes
    // the next line
    assert_eq!(get(&tree, "i"), Some(&Value::Str(s("j: Infinity"))));
    assert_eq!(get(&tree, "j"), None);
    let tree = parse("j: Infinity
i:");
    assert_eq!(get(&tree, "j"), Some(&Value::Num(s("Infinity"))));
    assert_eq!(get(&tree, "i"), Some(&Value::Str(s(""))));
}

#[test]
fn float_literals_match_f64_parsing() {
    for text in [
        "0", "1.", ".5", "-1e-3", "+1E+3", "inf", "-infinity", "NAN", "1e", ".", "", "+", "1.2.3",
        "e5", "1e5x", " 1", "iNf", "infinit", "12", "-", "1_0",
    ] {
        let chars: Vec<char> = text.chars().collect();
        assert_eq!(is_float_text(&chars), text.parse::<f64>().is_ok(), "{text:?}");
    }
}

#[test]
fn quoted_strings_and_escapes() {
    let tree = parse("a: \"x \\\"y\\\" \\\\ z\"\nb: \"unterminated");
    assert_eq!(get(&tree, "a"), Some(&Value::Str(s("x \"y\" \\ z"))));
    assert_eq!(get(&tree, "b"), Some(&Value::Str(s("unterminated"))));
}

#[test]
fn a_later_key_replaces_an_earlier_one() {
    let tree = parse("a: 1\nb: 2\na: three\n");
    assert_eq!(tree.len(), 2);
    assert_eq!(tree[0].0, "a");
    assert_eq!(get(&tree, "a"), Some(&Value::Str(s("three"))));
    assert_eq!(get(&tree, "b"), Some(&Value::Num(s("2"))));
}

#[test]
fn malformed_lines_are_skipped() {
    let tree = parse("key without colon\n!!! ?\nok: yes\n");
    assert_eq!(tree.len(), 1);
    assert_eq!(get(&tree, "ok"), Some(&Value::Str(s("yes"))));
}

#[test]
fn value_ends_at_closing_brace() {
    let tree = parse("w { a: 1 }\nb: 2");
    let w = get_section(&tree, "w").unwrap();
    assert_eq!(get(w, "a"), Some(&Value::Num(s("1"))));
    assert_eq!(get(&tree, "b"), Some(&Value::Num(s("2"))));
}

#[test]
fn nested_and_unclosed_sections() {
    let tree = parse("outer {\n inner {\n x: 1\n }\n y: 2\n}\nz { q: 3\n");
    let outer = get_section(&tree, "outer").unwrap();
    let inner = get_section(outer, "inner").unwrap();
    assert_eq!(get(inner, "x"), Some(&Value::Num(s("1"))));
    assert_eq!(get(outer, "y"), Some(&Value::Num(s("2"))));
    let z = get_section(&tree, "z").unwrap();
    assert_eq!(get(z, "q"), Some(&Value::Num(s("3"))));
}

#[test]
fn stray_closing_brace_ends_the_top_level() {
    let tree = parse("a: 1\n}\nb: 2\n");
    assert_eq!(tree.len(), 1);
    assert_eq!(get(&tree, "a"), Some(&Value::Num(s("1"))));
}

#[test]
fn empty_input() {
    assert!(parse("").is_empty());
    assert!(parse("   \n# only a comment").is_empty());
}

#[test]
fn get_section_needs_a_section() {
    let tree = parse("a: 1\nb { }\n");
    assert!(get_section(&tree, "a").is_none());
    assert!(get_section(&tree, "missing").is_none());
    assert_eq!(get_section(&tree, "b").map(|v| v.len()), Some(0));
}

#[test]
fn hex_colors() {
    assert_eq!(hex_to_rgb("#1e1e2e"), [0x1e, 0x1e, 0x2e]);
    assert_eq!(hex_to_rgb("1E1E2E"), [0x1e, 0x1e, 0x2e]);
    assert_eq!(hex_to_rgb("##ff0080"), [255, 0, 128]);
    assert_eq!(hex_to_rgb("#fff"), [0, 0, 0]);
    assert_eq!(hex_to_rgb("#zz00ff"), [0, 0, 255]);
    assert_eq!(hex_to_rgb("#+f0a-1"), [15, 10, 0]);
    assert_eq!(hex_to_rgb("#cdd6f4ff"), [0xcd, 0xd6, 0xf4]);
    assert_eq!(hex_to_rgb(""), [0, 0, 0]);
    assert_eq!(hex_to_rgb("#éé00"), [0, 0, 0]);
}

#[test]
fn hex_color_cuts() {
    assert!(hex_color_ok("#1e1e2e"));
    assert!(hex_color_ok("#é"));
    assert!(hex_color_ok("#éé00"));
    assert!(!hex_color_ok("#aé0000"));
    assert!(!hex_color_ok("#0000aé"));
}

#[test]
fn colors_come_from_config_then_defaults() {
    let tree = parse("colors {\n background: #000001\n red: #ff0000\n extra: #010203\n size: 3\n}\n");
    assert!(colors_ok(&tree));
    let colors = config_colors(&tree);
    assert_eq!(color_of(&colors, "background"), Some([0, 0, 1]));
    assert_eq!(color_of(&colors, "red"), Some([255, 0, 0]));
    assert_eq!(color_of(&colors, "extra"), Some([1, 2, 3]));
    assert_eq!(color_of(&colors, "size"), None);
    assert_eq!(color_of(&colors, "foreground"), Some([0xcd, 0xd6, 0xf4]));
    assert_eq!(color_of(&colors, "cursor"), Some([0xf5, 0xe0, 0xdc]));
    assert_eq!(color_of(&colors, "bright_cyan"), Some([0x94, 0xe2, 0xd5]));
    assert_eq!(color_of(&colors, "bright_white"), Some([0xa6, 0xad, 0xc8]));
    assert_eq!(colors.len(), 20);
}

#[test]
fn default_colors_without_config() {
    let colors = config_colors(&parse(""));
    assert_eq!(colors.len(), 19);
    assert_eq!(color_of(&colors, "background"), Some([0x1e, 0x1e, 0x2e]));
    assert_eq!(color_of(&colors, "bright_black"), Some([0x58, 0x5b, 0x70]));
}

#[test]
fn bad_color_text_is_reported() {
    let tree = parse("colors {\n red: #aé0000\n}\n");
    assert!(!colors_ok(&tree));
}

#[test]
fn palette_from_colors() {
    let colors = config_colors(&parse("colors {\n red: #ff0000\n}\n"));
    let fallback = [1, 1, 1];
    let p = terminal_palette(&colors, fallback);
    assert_eq!(p[1], [255, 0, 0]);
    assert_eq!(p[0], [0x45, 0x47, 0x5a]);
    assert_eq!(p[14], [0x94, 0xe2, 0xd5]);
    let p = terminal_palette(&Vec::new(), fallback);
    assert!(p.iter().all(|c| *c == fallback));
}
