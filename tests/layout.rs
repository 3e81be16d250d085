use std::collections::HashMap;

use asm_layout::argument::{parse_const_expression, parse_string_literal};
use asm_layout::constants::PROGRAM_START;
use asm_layout::layout::{classify_directive, layout_memory, DirectiveKind, Layout, MemoryLayoutError, Placement};
use asm_layout::program::Line;

fn label_map(layout: &Layout) -> HashMap<&str, u64> {
    layout.labels.iter().map(|l| (l.name.as_str(), l.address)).collect()
}

#[test]
fn place_labels_simple_test() {
    let program = vec![
        Line::default().symbol("main").instruction("add", vec!["%a", "%b"]),
        Line::default().symbol("loop").instruction("jmp", vec!["loop"]),
    ];

    let layout = layout_memory(&program).ok().unwrap();
    let labels = label_map(&layout);
    let expected = {
        let mut h = HashMap::new();
        h.insert("main", PROGRAM_START);
        h.insert("loop", PROGRAM_START + 1);
        h
    };
    assert_eq!(labels, expected);
}

#[test]
fn place_labels_addr_test() {
    let program = vec![
        Line::default().directive("addr", "10"),
        Line::default().symbol("main").instruction("jmp", vec!["main"]),
    ];

    let layout = layout_memory(&program).ok().unwrap();
    let labels = label_map(&layout);
    let expected = {
        let mut h = HashMap::new();
        h.insert("main", 10);
        h
    };
    assert_eq!(labels, expected);
}

#[test]
fn place_labels_space_test() {
    let program = vec![
        Line::default().symbol("first").directive("space", "10"),
        Line::default().symbol("second").directive("space", "5"),
        Line::default().symbol("main").instruction("jmp", vec!["main"]),
    ];

    let layout = layout_memory(&program).ok().unwrap();
    let labels = label_map(&layout);
    let expected = {
        let mut h = HashMap::new();
        h.insert("first", PROGRAM_START);
        h.insert("second", PROGRAM_START + 10);
        h.insert("main", PROGRAM_START + 15);
        h
    };
    assert_eq!(labels, expected);
}

#[test]
fn place_labels_word_test() {
    let program = vec![
        Line::default().symbol("first").directive("word", "123"),
        Line::default().symbol("second").directive("word", "456"),
        Line::default().symbol("main").instruction("jmp", vec!["main"]),
    ];

    let layout = layout_memory(&program).ok().unwrap();
    let labels = label_map(&layout);
    let expected = {
        let mut h = HashMap::new();
        h.insert("first", PROGRAM_START);
        h.insert("second", PROGRAM_START + 1);
        h.insert("main", PROGRAM_START + 2);
        h
    };
    assert_eq!(labels, expected);
}

#[test]
fn place_labels_string_test() {
    let program = vec![
        Line::default().symbol("first").directive("string", r#""hello""#),
        Line::default().symbol("second").directive("string", r#""Émoticône: 🚙""#),
        Line::default().symbol("main").instruction("jmp", vec!["main"]),
    ];

    let layout = layout_memory(&program).ok().unwrap();
    let labels = label_map(&layout);
    let expected = {
        let mut h = HashMap::new();
        h.insert("first", PROGRAM_START);
        h.insert("second", PROGRAM_START + 5);
        h.insert("main", PROGRAM_START + 5 + 12);
        h
    };
    assert_eq!(labels, expected);
}

#[test]
fn instruction_and_word_fill_one_cell_each() {
    let program = vec![
        Line::default().instruction("add", vec!["%a", "%b"]),
        Line::default().symbol("after").directive("word", "7"),
        Line::default().symbol("end"),
    ];
    let layout = layout_memory(&program).ok().unwrap();
    assert_eq!(layout.memory.len(), 2);
    assert_eq!(layout.memory.get(&PROGRAM_START), Some(&Placement::Line(0)));
    assert_eq!(layout.memory.get(&(PROGRAM_START + 1)), Some(&Placement::Line(1)));
    let labels = label_map(&layout);
    assert_eq!(labels.get("after"), Some(&(PROGRAM_START + 1)));
    assert_eq!(labels.get("end"), Some(&(PROGRAM_START + 2)));
}

#[test]
fn space_reserves_cells_from_the_cursor() {
    let program = vec![
        Line::default().directive("space", "3"),
        Line::default().symbol("next").directive("space", "0"),
        Line::default().symbol("last"),
    ];
    let layout = layout_memory(&program).ok().unwrap();
    assert_eq!(layout.memory.len(), 3);
    for a in PROGRAM_START..PROGRAM_START + 3 {
        assert_eq!(layout.memory.get(&a), Some(&Placement::Reserved));
    }
    let labels = label_map(&layout);
    assert_eq!(labels.get("next"), Some(&(PROGRAM_START + 3)));
    assert_eq!(labels.get("last"), Some(&(PROGRAM_START + 3)));
}

#[test]
fn string_places_decoded_characters() {
    let program = vec![
        Line::default().directive("string", r#""é\n🚙""#),
        Line::default().symbol("end"),
    ];
    let layout = layout_memory(&program).ok().unwrap();
    assert_eq!(layout.memory.len(), 3);
    assert_eq!(layout.memory.get(&PROGRAM_START), Some(&Placement::Char('é')));
    assert_eq!(layout.memory.get(&(PROGRAM_START + 1)), Some(&Placement::Char('\n')));
    assert_eq!(layout.memory.get(&(PROGRAM_START + 2)), Some(&Placement::Char('🚙')));
    assert_eq!(label_map(&layout).get("end"), Some(&(PROGRAM_START + 3)));
}

#[test]
fn addr_moves_the_cursor_without_placing() {
    let program = vec![
        Line::default().instruction("nop", vec![]),
        Line::default().directive("addr", "0x10"),
        Line::default().symbol("here").instruction("nop", vec![]),
        Line::default().directive("addr", "5"),
        Line::default().symbol("back"),
    ];
    let layout = layout_memory(&program).ok().unwrap();
    assert_eq!(layout.memory.len(), 2);
    assert_eq!(layout.memory.get(&16), Some(&Placement::Line(2)));
    let labels = label_map(&layout);
    assert_eq!(labels.get("here"), Some(&16));
    assert_eq!(labels.get("back"), Some(&5));
}

#[test]
fn duplicate_label_is_rejected() {
    let program = vec![
        Line::default().symbol("start").instruction("nop", vec![]),
        Line::default().symbol("other").symbol("start"),
    ];
    match layout_memory(&program) {
        Err(MemoryLayoutError::DuplicateLabel { label }) => assert_eq!(label, "start"),
        _ => panic!("expected a duplicate label"),
    }
}

#[test]
fn duplicate_label_on_one_line_is_rejected() {
    let program = vec![Line::default().symbol("x").symbol("x")];
    match layout_memory(&program) {
        Err(MemoryLayoutError::DuplicateLabel { label }) => assert_eq!(label, "x"),
        _ => panic!("expected a duplicate label"),
    }
}

#[test]
fn unsupported_directive_is_rejected() {
    let program = vec![Line::default().symbol("a").directive("foo", "1")];
    match layout_memory(&program) {
        Err(MemoryLayoutError::UnsupportedDirective { directive }) => assert_eq!(directive, "foo"),
        _ => panic!("expected an unsupported directive"),
    }
}

#[test]
fn malformed_arguments_are_rejected() {
    for (name, argument) in [("space", "10x"), ("addr", "1 2"), ("space", ""), ("string", "\"abc"), ("addr", "0x")] {
        let program = vec![Line::default().directive(name, argument)];
        match layout_memory(&program) {
            Err(MemoryLayoutError::ArgumentParseError { argument: a }) => assert_eq!(a, argument),
            _ => panic!("expected an argument error for {name} {argument}"),
        }
    }
}

#[test]
fn cursor_past_the_last_address_is_rejected() {
    let program = vec![
        Line::default().directive("addr", "18446744073709551615"),
        Line::default().instruction("nop", vec![]),
    ];
    assert!(matches!(layout_memory(&program), Err(MemoryLayoutError::AddressOverflow)));
    let program = vec![
        Line::default().directive("addr", "0xFFFFFFFFFFFFFFFE"),
        Line::default().directive("space", "1"),
        Line::default().symbol("last"),
    ];
    let layout = layout_memory(&program).ok().unwrap();
    assert_eq!(label_map(&layout).get("last"), Some(&u64::MAX));
}

#[test]
fn const_expressions() {
    assert_eq!(parse_const_expression("0"), Some(0));
    assert_eq!(parse_const_expression("1234"), Some(1234));
    assert_eq!(parse_const_expression("0x1F"), Some(31));
    assert_eq!(parse_const_expression("0Xff"), Some(255));
    assert_eq!(parse_const_expression("18446744073709551615"), Some(u64::MAX));
    assert_eq!(parse_const_expression("18446744073709551616"), None);
    assert_eq!(parse_const_expression("12a"), None);
    assert_eq!(parse_const_expression(""), None);
    assert_eq!(parse_const_expression(" 1"), None);
}

#[test]
fn string_literals() {
    assert_eq!(parse_string_literal(r#""hello""#), Some("hello".chars().collect::<Vec<char>>()));
    assert_eq!(parse_string_literal(r#""Émoticône: 🚙""#).map(|v| v.len()), Some(12));
    assert_eq!(parse_string_literal(r#""a\"b\\c\t""#), Some(vec!['a', '"', 'b', '\\', 'c', '\t']));
    assert_eq!(parse_string_literal(r#""""#), Some(vec![]));
    assert_eq!(parse_string_literal(r#""a"b""#), None);
    assert_eq!(parse_string_literal(r#""\q""#), None);
    assert_eq!(parse_string_literal(r#""\""#), None);
    assert_eq!(parse_string_literal("hello"), None);
}

#[test]
fn directive_names() {
    assert_eq!(classify_directive("word"), DirectiveKind::Word);
    assert_eq!(classify_directive("space"), DirectiveKind::Space);
    assert_eq!(classify_directive("addr"), DirectiveKind::Addr);
    assert_eq!(classify_directive("string"), DirectiveKind::Str);
    assert_eq!(classify_directive("words"), DirectiveKind::Unsupported);
    assert_eq!(classify_directive("Word"), DirectiveKind::Unsupported);
}
