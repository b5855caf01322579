use htot_conv::outline::Outline;
use htot_conv::parser::dir_tree::{DirTreeParser, DirTreeParserOptions};
use htot_conv::parser::mspdi::{MspdiParser, MspdiParserOptions};
use htot_conv::parser::opml::{OpmlParser, OpmlParserOptions};
use htot_conv::parser::simple_text::{SimpleTextParser, SimpleTextParserOptions};
use htot_conv::parser::html_list::{HtmlEvent, HtmlListParser, HtmlListParserOptions};
use htot_conv::parser::mspdi::XmlEvent;
use htot_conv::parser::opml::OpmlEvent;
use htot_conv::parser::{parse_u32_str, split_string, trim_str};

fn reference_outline() -> Outline {
    let mut outline = Outline::new();
    outline.key_header = vec!["H1".to_string(), "H2".to_string(), "H3".to_string()];
    outline.value_header = vec!["H(1)".to_string(), "H(2)".to_string()];
    outline.add_item("1", 1, vec!["1(1)".to_string(), "1(2)".to_string()]);
    outline.add_item("1.1", 2, vec!["1.1(1)".to_string(), "1.1(2)".to_string()]);
    outline.add_item("1.2", 2, vec!["1.2(1)".to_string(), "1.2(2)".to_string()]);
    outline.add_item(
        "1.2.1",
        3,
        vec!["1.2.1(1)".to_string(), "1.2.1(2)".to_string()],
    );
    outline
}

#[test]
fn test_simple_text_parser_options_default() {
    let options = SimpleTextParserOptions::default();
    assert_eq!(options.indent, "\t");
    assert_eq!(options.delimiter, None);

    assert_eq!(options.preserve_empty_line, false);
    assert_eq!(options.key_header, None);
    assert_eq!(options.value_header, None);
}

#[test]
fn test_simple_text_parser_new() {
    let options = SimpleTextParserOptions {
        indent: "  ".to_string(),
        delimiter: Some("\t".to_string()),
        value_header: Some("H(1),H(2)".to_string()),
        preserve_empty_line: true,
        ..Default::default()
    };
    let parser = SimpleTextParser::new(options);
    assert_eq!(parser.option.indent, "  ");
    assert_eq!(parser.option.delimiter, Some("\t".to_string()));

    assert_eq!(parser.option.value_header, Some("H(1),H(2)".to_string()));
    assert_eq!(parser.option.preserve_empty_line, true);
}

#[test]
fn test_simple_text_parser_parse() {
    let input = r#"1           , 1(1),     1(2)
  1.1       , 1.1(1),   1.1(2)
  1.2       , 1.2(1),   1.2(2)
    1.2.1   , 1.2.1(1), 1.2.1(2)
"#;
    let options = SimpleTextParserOptions {
        indent: "  ".to_string(),
        delimiter: Some(",".to_string()),
        value_header: Some("H(1),H(2)".to_string()),
        ..Default::default()
    };
    let parser = SimpleTextParser::new(options);
    let outline = parser.parse(input).unwrap();

    let mut expected_outline = reference_outline();
    expected_outline.key_header = Vec::new();
    expected_outline.value_header = vec!["H(1)".to_string(), "H(2)".to_string()];
    assert_eq!(outline, expected_outline);

    let input_no_headers = r#"1           , 1(1),     1(2)
  1.1       , 1.1(1),   1.1(2)
  1.2       , 1.2(1),   1.2(2)
    1.2.1   , 1.2.1(1), 1.2.1(2)

"#;
    let options_no_headers = SimpleTextParserOptions {
        indent: "  ".to_string(),
        delimiter: Some(",".to_string()),
        ..Default::default()
    };
    let parser_no_headers = SimpleTextParser::new(options_no_headers);
    let outline_no_headers = parser_no_headers.parse(input_no_headers).unwrap();

    let mut expected_outline_no_headers = reference_outline();
    expected_outline_no_headers.key_header = Vec::new();
    expected_outline_no_headers.value_header = Vec::new();
    assert_eq!(outline_no_headers, expected_outline_no_headers);

    let input_preserve_empty = r#"1

  1.1
"#;
    let options_preserve_empty = SimpleTextParserOptions {
        indent: "  ".to_string(),
        preserve_empty_line: true,
        key_header: Some("H1".to_string()),
        value_header: Some("V1".to_string()),
        ..Default::default()
    };
    let parser_preserve_empty = SimpleTextParser::new(options_preserve_empty);
    let outline_preserve_empty = parser_preserve_empty.parse(input_preserve_empty).unwrap();

    let mut expected_outline_preserve_empty = Outline::new();
    expected_outline_preserve_empty.key_header = vec!["H1".to_string()];
    expected_outline_preserve_empty.value_header = vec!["V1".to_string()];
    expected_outline_preserve_empty.add_item("1", 1, Vec::new());
    expected_outline_preserve_empty.add_item("", 1, Vec::new());
    expected_outline_preserve_empty.add_item("1.1", 2, Vec::new());
    assert_eq!(outline_preserve_empty, expected_outline_preserve_empty);
}

#[test]
fn test_simple_text_parser_header_parsing() {
    let options = SimpleTextParserOptions {
        key_header: Some("H1,H2,H3".to_string()),
        value_header: Some("V1,V2".to_string()),
        ..Default::default()
    };
    let parser = SimpleTextParser::new(options);
    let outline = parser.parse("").unwrap();

    assert_eq!(
        outline.key_header,
        vec!["H1".to_string(), "H2".to_string(), "H3".to_string()]
    );
    assert_eq!(
        outline.value_header,
        vec!["V1".to_string(), "V2".to_string()]
    );
}

#[test]
fn test_dir_tree_parser_options_default() {
    let options = DirTreeParserOptions::default();
    assert_eq!(options.key_header, None);
    assert_eq!(options.glob_pattern, Some("**/*".to_string()));
    assert_eq!(options.dir_indicator, None);
}

#[test]
fn test_dir_tree_parser_new() {
    let options = DirTreeParserOptions {
        key_header: Some("Header1,Header2".to_string()),
        glob_pattern: Some("*.txt".to_string()),
        dir_indicator: Some("/".to_string()),
    };
    let parser = DirTreeParser::new(options.clone());
    assert_eq!(parser.option.key_header, options.key_header);
    assert_eq!(parser.option.glob_pattern, options.glob_pattern);
    assert_eq!(parser.option.dir_indicator, options.dir_indicator);
}

#[test]
fn test_mspdi_generate_outline_item() {
    let parser = MspdiParser::new(MspdiParserOptions {
        key_header: Vec::new(),
        value_header: Vec::new(),
    });
    let mut outline = Outline::new();
    outline.value_header = vec!["StartDate".to_string(), "FinishDate".to_string()];

    let values = vec![
        ("Name".to_string(), "Task A".to_string()),
        ("OutlineLevel".to_string(), "2".to_string()),
        ("StartDate".to_string(), "2025-01-01".to_string()),
        ("FinishDate".to_string(), "2025-01-05".to_string()),
    ];
    parser.generate_outline_item(&mut outline, &values);

    assert_eq!(outline.item.len(), 1);
    assert_eq!(outline.item[0].key, "Task A");
    assert_eq!(outline.item[0].level, 2);
    assert_eq!(
        outline.item[0].value,
        vec!["2025-01-01".to_string(), "2025-01-05".to_string()]
    );

    // An unreadable level falls back to 1.
    let values_bad = vec![
        ("Name".to_string(), "Task B".to_string()),
        ("OutlineLevel".to_string(), "deep".to_string()),
    ];
    parser.generate_outline_item(&mut outline, &values_bad);
    assert_eq!(outline.item[1].key, "Task B");
    assert_eq!(outline.item[1].level, 1);
}

#[test]
fn test_opml_generate_outline_item() {
    let parser = OpmlParser::new(OpmlParserOptions {
        key_header: None,
        value_header: None,
    });
    let mut outline = Outline::new();
    outline.value_header = vec!["due".to_string(), "priority".to_string()];

    let attrs = vec![
        ("text".to_string(), "  Task A  ".to_string()),
        ("due".to_string(), "2025-01-01".to_string()),
    ];
    parser.generate_outline_item(&mut outline, &attrs, 1);

    assert_eq!(outline.item.len(), 1);
    assert_eq!(outline.item[0].key, "Task A");
    assert_eq!(outline.item[0].level, 1);
    assert_eq!(
        outline.item[0].value,
        vec!["2025-01-01".to_string(), "".to_string()]
    );
}

#[test]
fn test_parse_comma_separated_trims_entries() {
    let arg = Some(" a , b ,c".to_string());
    let parts = SimpleTextParserOptions::parse_comma_separated(&arg);
    assert_eq!(
        parts,
        vec!["a".to_string(), "b".to_string(), "c".to_string()]
    );
    assert_eq!(
        SimpleTextParserOptions::parse_comma_separated(&None),
        Vec::<String>::new()
    );
}

#[test]
fn test_trim_and_split() {
    assert_eq!(trim_str("  spaced out \t"), "spaced out");
    assert_eq!(trim_str("\u{3000}wide\u{3000}"), "wide");
    assert_eq!(trim_str("   "), "");
    assert_eq!(
        split_string("a,,b", ","),
        vec!["a".to_string(), "".to_string(), "b".to_string()]
    );
    assert_eq!(split_string("abc", ","), vec!["abc".to_string()]);
}

#[test]
fn test_parse_u32_str() {
    assert_eq!(parse_u32_str("0"), Some(0));
    assert_eq!(parse_u32_str("42"), Some(42));
    assert_eq!(parse_u32_str("+7"), Some(7));
    assert_eq!(parse_u32_str("4294967295"), Some(u32::MAX));
    assert_eq!(parse_u32_str("4294967296"), None);
    assert_eq!(parse_u32_str(""), None);
    assert_eq!(parse_u32_str("+"), None);
    assert_eq!(parse_u32_str("-1"), None);
    assert_eq!(parse_u32_str("1.5"), None);
}

#[test]
fn test_parser_and_generator_types() {
    assert_eq!(
        htot_conv::get_parser_types(),
        vec!["simple_text", "dir_tree", "html_list", "mspdi", "opml"]
    );
    assert_eq!(
        htot_conv::get_generator_types(),
        vec![
            "xlsx_type0",
            "xlsx_type1",
            "xlsx_type2",
            "xlsx_type3",
            "xlsx_type4",
            "xlsx_type5"
        ]
    );
}

#[test]
fn test_html_list_events() {
    // The walk of <ul><li>Item 1</li><li>Item 2<ul><li>Subitem 2.1</li></ul></li></ul>.
    let parser = HtmlListParser::new(HtmlListParserOptions { key_header: Vec::new() });
    let mut outline = Outline::new();
    let mut state = parser.initial_state();
    let events = vec![
        HtmlEvent::Open("ul".to_string()),
        HtmlEvent::Open("li".to_string()),
        HtmlEvent::Text("Item 1".to_string()),
        HtmlEvent::Close,
        HtmlEvent::Open("li".to_string()),
        HtmlEvent::Text("Item 2".to_string()),
        HtmlEvent::Open("ul".to_string()),
        HtmlEvent::Open("li".to_string()),
        HtmlEvent::Text("Subitem 2.1".to_string()),
        HtmlEvent::Close,
        HtmlEvent::Close,
        HtmlEvent::Close,
        HtmlEvent::Close,
    ];
    for ev in events {
        parser.handle_event(&mut outline, &mut state, ev);
    }
    assert_eq!(outline.item.len(), 3);
    assert_eq!(outline.item[0].key, "Item 1");
    assert_eq!(outline.item[0].level, 1);
    assert_eq!(outline.item[1].key, "Item 2");
    assert_eq!(outline.item[1].level, 1);
    assert_eq!(outline.item[2].key, "Subitem 2.1");
    assert_eq!(outline.item[2].level, 2);
}

#[test]
fn test_html_list_events_wrapped_text() {
    // The walk of <ul><li><b>Bold Item</b></li></ul>: markup inside the item
    // contributes its text.
    let parser = HtmlListParser::new(HtmlListParserOptions { key_header: Vec::new() });
    let mut outline = Outline::new();
    let mut state = parser.initial_state();
    let events = vec![
        HtmlEvent::Open("ul".to_string()),
        HtmlEvent::Open("li".to_string()),
        HtmlEvent::Open("b".to_string()),
        HtmlEvent::Text("Bold Item".to_string()),
        HtmlEvent::Close,
        HtmlEvent::Close,
        HtmlEvent::Close,
    ];
    for ev in events {
        parser.handle_event(&mut outline, &mut state, ev);
    }
    assert_eq!(outline.item.len(), 1);
    assert_eq!(outline.item[0].key, "Bold Item");
    assert_eq!(outline.item[0].level, 1);
}

#[test]
fn test_accumulate_pair() {
    let mut pairs: Vec<(String, String)> = Vec::new();
    htot_conv::parser::accumulate_pair(&mut pairs, "Name", "Task ");
    htot_conv::parser::accumulate_pair(&mut pairs, "Name", "A");
    htot_conv::parser::accumulate_pair(&mut pairs, "OutlineLevel", "2");
    assert_eq!(
        pairs,
        vec![
            ("Name".to_string(), "Task A".to_string()),
            ("OutlineLevel".to_string(), "2".to_string())
        ]
    );
}

#[test]
fn test_dir_tree_path_collection() {
    let entries = vec![
        vec!["subdir1".to_string(), "file2.txt".to_string()],
        vec!["file1.txt".to_string()],
    ];
    let paths = htot_conv::parser::dir_tree::collect_path_prefixes(&entries);
    assert_eq!(
        paths,
        vec![
            vec!["file1.txt".to_string()],
            vec!["subdir1".to_string()],
            vec!["subdir1".to_string(), "file2.txt".to_string()],
        ]
    );

    let parser = DirTreeParser::new(DirTreeParserOptions {
        key_header: None,
        glob_pattern: None,
        dir_indicator: Some("/".to_string()),
    });
    let outline = parser.generate_outline(&paths, &vec![false, true, false]);
    assert_eq!(outline.item.len(), 3);
    assert_eq!(outline.item[0].key, "file1.txt");
    assert_eq!(outline.item[0].level, 1);
    assert_eq!(outline.item[1].key, "subdir1/");
    assert_eq!(outline.item[1].level, 1);
    assert_eq!(outline.item[2].key, "file2.txt");
    assert_eq!(outline.item[2].level, 2);
}

#[test]
fn test_mspdi_events() {
    // The walk of a project file with three tasks: Task 1 at level 1,
    // Subtask 1.1 at level 2, Task 2 at level 1.
    let parser = MspdiParser::new(MspdiParserOptions {
        key_header: vec![],
        value_header: vec![],
    });
    let mut outline = Outline::new();
    let mut state = parser.initial_state();
    let task = |name: &str, level: &str| -> Vec<XmlEvent> {
        vec![
            XmlEvent::Start("Task".to_string()),
            XmlEvent::Start("UID".to_string()),
            XmlEvent::Text("1".to_string()),
            XmlEvent::End("UID".to_string()),
            XmlEvent::Start("Name".to_string()),
            XmlEvent::Text(name.to_string()),
            XmlEvent::End("Name".to_string()),
            XmlEvent::Start("OutlineLevel".to_string()),
            XmlEvent::Text(level.to_string()),
            XmlEvent::End("OutlineLevel".to_string()),
            XmlEvent::End("Task".to_string()),
        ]
    };
    let mut events = vec![
        XmlEvent::Start("Project".to_string()),
        XmlEvent::Start("Tasks".to_string()),
    ];
    events.extend(task("Task 1", "1"));
    events.extend(task("Subtask 1.1", "2"));
    events.extend(task("Task 2", "1"));
    events.push(XmlEvent::End("Tasks".to_string()));
    events.push(XmlEvent::End("Project".to_string()));
    for ev in events {
        parser.handle_event(&mut outline, &mut state, ev);
    }

    assert_eq!(outline.item.len(), 3);
    assert_eq!(outline.item[0].key, "Task 1");
    assert_eq!(outline.item[0].level, 1);
    assert_eq!(outline.item[1].key, "Subtask 1.1");
    assert_eq!(outline.item[1].level, 2);
    assert_eq!(outline.item[2].key, "Task 2");
    assert_eq!(outline.item[2].level, 1);
}

#[test]
fn test_mspdi_events_with_values() {
    // Two tasks carrying start and finish dates into the value columns.
    let parser = MspdiParser::new(MspdiParserOptions {
        key_header: vec![],
        value_header: vec!["StartDate".to_string(), "FinishDate".to_string()],
    });
    let mut outline = Outline::new();
    outline.value_header = vec!["StartDate".to_string(), "FinishDate".to_string()];
    let mut state = parser.initial_state();
    let task = |name: &str, start: &str, finish: &str| -> Vec<XmlEvent> {
        vec![
            XmlEvent::Start("Task".to_string()),
            XmlEvent::Start("Name".to_string()),
            XmlEvent::Text(name.to_string()),
            XmlEvent::End("Name".to_string()),
            XmlEvent::Start("OutlineLevel".to_string()),
            XmlEvent::Text("1".to_string()),
            XmlEvent::End("OutlineLevel".to_string()),
            XmlEvent::Start("StartDate".to_string()),
            XmlEvent::Text(start.to_string()),
            XmlEvent::End("StartDate".to_string()),
            XmlEvent::Start("FinishDate".to_string()),
            XmlEvent::Text(finish.to_string()),
            XmlEvent::End("FinishDate".to_string()),
            XmlEvent::End("Task".to_string()),
        ]
    };
    let mut events = vec![XmlEvent::Start("Project".to_string())];
    events.extend(task("Task A", "2025-01-01", "2025-01-05"));
    events.extend(task("Task B", "2025-01-06", "2025-01-10"));
    events.push(XmlEvent::End("Project".to_string()));
    for ev in events {
        parser.handle_event(&mut outline, &mut state, ev);
    }

    assert_eq!(outline.item.len(), 2);
    assert_eq!(outline.item[0].key, "Task A");
    assert_eq!(outline.item[0].level, 1);
    assert_eq!(outline.item[0].value[0], "2025-01-01");
    assert_eq!(outline.item[0].value[1], "2025-01-05");
    assert_eq!(outline.item[1].key, "Task B");
    assert_eq!(outline.item[1].level, 1);
    assert_eq!(outline.item[1].value[0], "2025-01-06");
    assert_eq!(outline.item[1].value[1], "2025-01-10");
}

#[test]
fn test_opml_events() {
    // The walk of Item 1 holding two subitems, then Item 2 standing alone.
    let parser = OpmlParser::new(OpmlParserOptions {
        key_header: None,
        value_header: None,
    });
    let mut outline = Outline::new();
    let mut level: u32 = 0;
    let text_attr = |t: &str| vec![("text".to_string(), t.to_string())];
    let events = vec![
        OpmlEvent::Start("opml".to_string(), Vec::new()),
        OpmlEvent::Start("body".to_string(), Vec::new()),
        OpmlEvent::Start("outline".to_string(), text_attr("Item 1")),
        OpmlEvent::Empty("outline".to_string(), text_attr("Subitem 1.1")),
        OpmlEvent::Empty("outline".to_string(), text_attr("Subitem 1.2")),
        OpmlEvent::End("outline".to_string()),
        OpmlEvent::Empty("outline".to_string(), text_attr("Item 2")),
        OpmlEvent::End("body".to_string()),
        OpmlEvent::End("opml".to_string()),
    ];
    for ev in events {
        parser.handle_event(&mut outline, &mut level, ev);
    }

    assert_eq!(outline.item.len(), 4);
    assert_eq!(outline.item[0].key, "Item 1");
    assert_eq!(outline.item[0].level, 1);
    assert_eq!(outline.item[1].key, "Subitem 1.1");
    assert_eq!(outline.item[1].level, 2);
    assert_eq!(outline.item[2].key, "Subitem 1.2");
    assert_eq!(outline.item[2].level, 2);
    assert_eq!(outline.item[3].key, "Item 2");
    assert_eq!(outline.item[3].level, 1);
}

#[test]
fn test_opml_events_with_attributes() {
    // Attributes matching the value headers land in their columns; others
    // are dropped.
    let parser = OpmlParser::new(OpmlParserOptions {
        key_header: None,
        value_header: Some("due,priority".to_string()),
    });
    let mut outline = Outline::new();
    outline.value_header = vec!["due".to_string(), "priority".to_string()];
    let mut level: u32 = 0;
    let events = vec![
        OpmlEvent::Start("opml".to_string(), Vec::new()),
        OpmlEvent::Start("body".to_string(), Vec::new()),
        OpmlEvent::Empty(
            "outline".to_string(),
            vec![
                ("text".to_string(), "Task A".to_string()),
                ("_note".to_string(), "Note for Task A".to_string()),
                ("due".to_string(), "2025-01-01".to_string()),
            ],
        ),
        OpmlEvent::Empty(
            "outline".to_string(),
            vec![
                ("text".to_string(), "Task B".to_string()),
                ("priority".to_string(), "high".to_string()),
            ],
        ),
        OpmlEvent::End("body".to_string()),
        OpmlEvent::End("opml".to_string()),
    ];
    for ev in events {
        parser.handle_event(&mut outline, &mut level, ev);
    }

    assert_eq!(outline.item.len(), 2);
    assert_eq!(outline.item[0].key, "Task A");
    assert_eq!(outline.item[0].level, 1);
    assert_eq!(outline.item[0].value.len(), 2);
    assert_eq!(outline.item[0].value[0], "2025-01-01");
    assert_eq!(outline.item[0].value[1], "");
    assert_eq!(outline.item[1].key, "Task B");
    assert_eq!(outline.item[1].level, 1);
    assert_eq!(outline.item[1].value.len(), 2);
    assert_eq!(outline.item[1].value[0], "");
    assert_eq!(outline.item[1].value[1], "high");

    assert_eq!(outline.value_header.len(), 2);
    assert_eq!(outline.value_header[0], "due");
    assert_eq!(outline.value_header[1], "priority");
}
