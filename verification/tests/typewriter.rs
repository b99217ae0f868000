use manhtml::typewriter::Typewriter;

#[test]
fn optarg() {
    let mut t = Typewriter::new();
    let s = "user";
    t.append('[');
    for c in s.chars() {
        t.append('_');
        t.append('\x08');
        t.append(c);
    }
    t.append(']');
    println!("{:#?}", t);
    assert_eq!(t.to_html(false), "[<u>user</u>]\n");
}

#[test]
fn lc_messages() {
    let mut t = Typewriter::new();
    let s = "LC_MESSAGES";
    for c in s.chars() {
        t.append(c);
        t.append('\x08');
        t.append(c);
    }
    println!("{:#?}", t);
    assert_eq!(t.to_html(false), "<b>LC_MESSAGES</b>\n");
}

#[test]
fn bold_with_spaces() {
    let mut t = Typewriter::new();
    let s1 = "ENVIRONMENT";
    let s2 = "VARIABLES";
    for c in s1.chars() {
        t.append(c);
        t.append('\x08');
        t.append(c);
    }
    t.append(' ');
    for c in s2.chars() {
        t.append(c);
        t.append('\x08');
        t.append(c);
    }
    println!("{:#?}", t);
    assert_eq!(t.to_html(false), "<b>ENVIRONMENT VARIABLES</b>\n");
}

#[test]
fn basic() {
    let mut t = Typewriter::new();
    t.append('h');
    t.append('e');
    t.append('l');
    t.append('l');
    t.append('o');
    t.append('\n');

    t.append('w');
    t.append('\x08');
    t.append('_');
    t.append('o');
    t.append('\x08');
    t.append('_');
    t.append('r');
    t.append('\x08');
    t.append('_');
    t.append('l');
    t.append('\x08');
    t.append('_');
    t.append('d');
    t.append('\x08');
    t.append('_');
    t.append('\n');

    t.append('i');
    t.append('n');
    t.append(' ');
    t.append('b');
    t.append('\x08');
    t.append('b');
    t.append('o');
    t.append('\x08');
    t.append('o');
    t.append('l');
    t.append('\x08');
    t.append('l');
    t.append('d');
    t.append('\x08');
    t.append('d');
    t.append('\n');

    t.append('\n');

    t.append('f');
    t.append('\x08');
    t.append('f');
    t.append('\x08');
    t.append('_');
    t.append('i');
    t.append('\x08');
    t.append('i');
    t.append('\x08');
    t.append('_');
    t.append('n');
    t.append('\x08');
    t.append('_');
    t.append('\x08');
    t.append('n');

    println!("{:#?}", t);
    assert_eq!(
        t.to_html(true),
        "hello<br>\n\
        <u>world</u><br>\n\
        in <b>bold</b><br>\n\
        <br>\n\
        <b><u>fin</u></b><br>\n"
    );
}

#[test]
fn empty_document_renders_one_line() {
    let mut t = Typewriter::new();
    assert_eq!(t.to_html(false), "\n");
    assert_eq!(t.to_html(true), "<br>\n");
}

#[test]
fn output_lines_match_line_feeds() {
    let mut t = Typewriter::new();
    let input = "one\ntwo\nthree";
    for c in input.chars() {
        t.append(c);
    }
    let html = t.to_html(false);
    let newlines = html.chars().filter(|c| *c == '\n').count();
    let fed = input.chars().filter(|c| *c == '\n').count();
    assert_eq!(newlines, fed + 1);
    assert_eq!(html, "one\ntwo\nthree\n");
}

#[test]
fn rendering_twice_is_identical() {
    let mut t = Typewriter::new();
    for c in "AB".chars() {
        t.append(c);
        t.append('\x08');
        t.append(c);
    }
    t.append(' ');
    for c in "CD".chars() {
        t.append(c);
        t.append('\x08');
        t.append(c);
    }
    let first = t.to_html(false);
    let second = t.to_html(false);
    assert_eq!(first, second);
    assert_eq!(first, "<b>AB CD</b>\n");
}

#[test]
fn escaping_exactly_three_characters() {
    let mut t = Typewriter::new();
    for c in "<>&_\"'".chars() {
        t.append(c);
    }
    assert_eq!(t.to_html(false), "&lt;&gt;&amp;_\"'\n");
}

#[test]
fn tags_reopen_after_forced_close() {
    // First cell bold and underlined, second underlined only: closing bold
    // also closes the underline above it, which is then reopened.
    let mut t = Typewriter::new();
    t.append('a');
    t.append('\x08');
    t.append('a');
    t.append('\x08');
    t.append('_');
    t.append('b');
    t.append('\x08');
    t.append('_');
    assert_eq!(t.to_html(false), "<b><u>a</u></b><u>b</u>\n");
}

#[test]
fn carriage_return_overtypes_from_column_zero() {
    let mut t = Typewriter::new();
    t.append('a');
    t.append('b');
    t.append('\r');
    t.append('c');
    assert_eq!(t.to_html(false), "cb\n");
}

#[test]
fn backspace_at_column_zero_is_ignored() {
    let mut t = Typewriter::new();
    t.append('\x08');
    t.append('a');
    assert_eq!(t.to_html(false), "a\n");
}

#[test]
fn other_control_characters_are_dropped() {
    let mut t = Typewriter::new();
    t.append('a');
    t.append('\x07');
    t.append('b');
    assert_eq!(t.to_html(false), "ab\n");
}

#[test]
fn unrelated_overstrike_keeps_latest_character() {
    let mut t = Typewriter::new();
    t.append('x');
    t.append('\x08');
    t.append('y');
    assert_eq!(t.to_html(false), "y\n");
}

#[test]
fn underline_space_bridging() {
    let mut t = Typewriter::new();
    for c in "ab".chars() {
        t.append('_');
        t.append('\x08');
        t.append(c);
    }
    t.append(' ');
    for c in "cd".chars() {
        t.append('_');
        t.append('\x08');
        t.append(c);
    }
    assert_eq!(t.to_html(false), "<u>ab cd</u>\n");
}

#[test]
fn no_bridging_next_to_plain_text() {
    let mut t = Typewriter::new();
    t.append('a');
    t.append('\x08');
    t.append('a');
    t.append(' ');
    t.append('b');
    assert_eq!(t.to_html(false), "<b>a</b> b\n");
}
