use genders::bytes::{scan, skip_gap, ByteClass};
use genders::engine::parse_tree;
use genders::error::{GendersError, SyntaxError};
use genders::number::{is_digit_word, is_false_word, is_true_word, read_decimal};
use genders::rule::Rule;
use genders::syntax::{Attribute, AttributeValue, GendersFile, HostEntry};
use genders::text::{same_text, slice};
use genders::tree::Node;

fn leaf(rule: Rule, start: usize, end: usize) -> Node {
    Node::leaf(rule, start, end)
}

fn node(rule: Rule, start: usize, end: usize, children: Vec<Node>) -> Node {
    Node::new(rule, start, end, children)
}

fn mismatch<T: std::fmt::Debug>(r: Result<T, GendersError>) {
    match r {
        Err(GendersError::InternalShapeMismatch) => {}
        other => panic!("expected a shape mismatch, got {:?}", other),
    }
}

#[test]
fn byte_classes() {
    for b in 0..=255u8 {
        let c = b as char;
        let ident = c.is_ascii_alphanumeric() || c == '_' || c == '-' || c == '.';
        let blank = c == ' ' || c == '\t' || c == '\r';
        let value = !(blank || c == '\n' || c == ',' || c == '#');
        assert_eq!(ByteClass::Ident.contains(b), ident);
        assert_eq!(ByteClass::Blank.contains(b), blank);
        assert_eq!(ByteClass::Value.contains(b), value);
        assert_eq!(ByteClass::Digit.contains(b), c.is_ascii_digit());
    }
}

#[test]
fn scan_stops_at_the_first_foreign_byte() {
    let bytes = b"node-1.x  \t=12a";
    assert_eq!(scan(bytes, 0, ByteClass::Ident), 8);
    assert_eq!(scan(bytes, 3, ByteClass::Ident), 8);
    assert_eq!(scan(bytes, 8, ByteClass::Ident), 8);
    assert_eq!(scan(bytes, 8, ByteClass::Blank), 11);
    assert_eq!(scan(bytes, 12, ByteClass::Digit), 14);
    assert_eq!(scan(bytes, 12, ByteClass::Value), 15);
    assert_eq!(scan(bytes, 15, ByteClass::Value), 15);
}

#[test]
fn skip_gap_passes_comments() {
    let bytes = b"  # a, b = c\n\t\r\n#x\nnode # not skipped";
    assert_eq!(skip_gap(bytes, 0), 19);
    assert_eq!(skip_gap(bytes, 19), 19);
    assert_eq!(skip_gap(bytes, 23), bytes.len());
    assert_eq!(skip_gap(b"", 0), 0);
    assert_eq!(skip_gap(b"# open", 0), 6);
}

#[test]
fn words_and_numbers() {
    let bytes = b"true,false,0042,18446744073709551615,18446744073709551616,x1";
    assert!(is_true_word(bytes, 0, 4));
    assert!(!is_true_word(bytes, 0, 3));
    assert!(!is_true_word(bytes, 5, 9));
    assert!(is_false_word(bytes, 5, 10));
    assert!(!is_false_word(bytes, 0, 5));
    assert!(is_digit_word(bytes, 11, 15));
    assert!(is_digit_word(bytes, 11, 11));
    assert!(!is_digit_word(bytes, 10, 15));
    assert!(!is_digit_word(bytes, 58, 60));
    assert_eq!(read_decimal(bytes, 11, 15), Some(42));
    assert_eq!(read_decimal(bytes, 11, 11), Some(0));
    assert_eq!(read_decimal(bytes, 16, 36), Some(u64::MAX));
    assert_eq!(read_decimal(bytes, 37, 57), None);
    assert_eq!(read_decimal(bytes, 16, 35), Some(1844674407370955161));
}

#[test]
fn slice_cuts_at_character_boundaries_only() {
    let text = "a\u{e9}b\u{1f600}c";
    assert_eq!(slice(text, 0, 1), Some("a"));
    assert_eq!(slice(text, 1, 3), Some("\u{e9}"));
    assert_eq!(slice(text, 0, text.len()), Some(text));
    assert_eq!(slice(text, 4, 8), Some("\u{1f600}"));
    assert_eq!(slice(text, 3, 3), Some(""));
    assert_eq!(slice(text, 9, 9), Some(""));
    assert_eq!(slice(text, 1, 2), None);
    assert_eq!(slice(text, 2, 3), None);
    assert_eq!(slice(text, 5, 8), None);
    assert_eq!(slice(text, 3, 2), None);
    assert_eq!(slice(text, 0, 10), None);
    assert_eq!(slice(text, 10, 10), None);
}

#[test]
fn same_text_compares_contents() {
    let a = String::from("node1");
    assert!(same_text(&a, "node1"));
    assert!(!same_text(&a, "node2"));
    assert!(!same_text(&a, "node"));
    assert!(!same_text(&a, "node10"));
    assert!(same_text("", ""));
    assert!(same_text("\u{e9}", "\u{e9}"));
    assert!(!same_text("\u{e9}", "\u{e8}"));
}

#[test]
fn tree_of_one_entry() {
    let tree = parse_tree("n1 a=7,b\n").unwrap();
    let expected = node(
        Rule::GendersFile,
        0,
        9,
        vec![
            node(
                Rule::HostEntry,
                0,
                8,
                vec![
                    leaf(Rule::Ident, 0, 2),
                    node(
                        Rule::AttributeList,
                        3,
                        8,
                        vec![
                            node(
                                Rule::Attribute,
                                3,
                                6,
                                vec![
                                    leaf(Rule::Ident, 3, 4),
                                    node(
                                        Rule::AttributeValue,
                                        5,
                                        6,
                                        vec![leaf(Rule::AttributeValueNumeric, 5, 6)],
                                    ),
                                ],
                            ),
                            node(Rule::Attribute, 7, 8, vec![leaf(Rule::Ident, 7, 8)]),
                        ],
                    ),
                ],
            ),
            leaf(Rule::EndOfInput, 9, 9),
        ],
    );
    assert_eq!(tree, expected);
}

#[test]
fn tree_of_the_empty_text() {
    let tree = parse_tree("").unwrap();
    assert_eq!(tree, node(Rule::GendersFile, 0, 0, vec![leaf(Rule::EndOfInput, 0, 0)]));
}

#[test]
fn tree_of_a_bare_host() {
    let tree = parse_tree(" h  # c").unwrap();
    let expected = node(
        Rule::GendersFile,
        0,
        7,
        vec![
            node(Rule::HostEntry, 1, 4, vec![leaf(Rule::Ident, 1, 2), leaf(Rule::AttributeList, 4, 4)]),
            leaf(Rule::EndOfInput, 7, 7),
        ],
    );
    assert_eq!(tree, expected);
}

#[test]
fn tree_tags_each_typed_form() {
    let tree = parse_tree("h a=true,b=x,c=9").unwrap();
    let list = &tree.children[0].children[1];
    let rules: Vec<Rule> = list.children.iter().map(|a| a.children[1].children[0].rule).collect();
    assert_eq!(
        rules,
        vec![Rule::AttributeValueBool, Rule::AttributeValueString, Rule::AttributeValueNumeric]
    );
}

#[test]
fn parse_tree_reports_offset_and_line() {
    assert_eq!(
        parse_tree("a b\nc d\ne f=\n").err(),
        Some(SyntaxError { offset: 12, line: 3, expected: Rule::AttributeValue })
    );
    assert_eq!(
        parse_tree("\n\n\n\n!").err(),
        Some(SyntaxError { offset: 4, line: 5, expected: Rule::HostEntry })
    );
}

#[test]
fn value_from_each_typed_form() {
    let text = "true false 0042 word";
    assert_eq!(
        AttributeValue::from_node(text, &leaf(Rule::AttributeValueBool, 0, 4)),
        Ok(AttributeValue::Boolean(true))
    );
    assert_eq!(
        AttributeValue::from_node(text, &leaf(Rule::AttributeValueBool, 5, 10)),
        Ok(AttributeValue::Boolean(false))
    );
    assert_eq!(
        AttributeValue::from_node(text, &leaf(Rule::AttributeValueNumeric, 11, 15)),
        Ok(AttributeValue::Number(42))
    );
    assert_eq!(
        AttributeValue::from_node(text, &leaf(Rule::AttributeValueString, 16, 20)),
        Ok(AttributeValue::String("word"))
    );
    assert_eq!(
        AttributeValue::from_node(text, &leaf(Rule::AttributeValueString, 0, 4)),
        Ok(AttributeValue::String("true"))
    );
    assert_eq!(
        AttributeValue::from_node(text, &leaf(Rule::AttributeValueString, 4, 4)),
        Ok(AttributeValue::String(""))
    );
    let wrapped = node(Rule::AttributeValue, 11, 15, vec![leaf(Rule::AttributeValueNumeric, 11, 15)]);
    assert_eq!(AttributeValue::from_node(text, &wrapped), Ok(AttributeValue::Number(42)));
}

#[test]
fn value_of_an_unknown_shape_is_a_mismatch() {
    let text = "true false 0042 word 99999999999999999999 \u{e9}";
    mismatch(AttributeValue::from_node(text, &leaf(Rule::Ident, 0, 4)));
    mismatch(AttributeValue::from_node(text, &leaf(Rule::Attribute, 0, 4)));
    mismatch(AttributeValue::from_node(text, &leaf(Rule::EndOfInput, 0, 0)));
    mismatch(AttributeValue::from_node(text, &leaf(Rule::AttributeValue, 0, 4)));
    mismatch(AttributeValue::from_node(text, &leaf(Rule::AttributeValueBool, 0, 3)));
    mismatch(AttributeValue::from_node(text, &leaf(Rule::AttributeValueBool, 16, 20)));
    mismatch(AttributeValue::from_node(text, &leaf(Rule::AttributeValueNumeric, 16, 20)));
    mismatch(AttributeValue::from_node(text, &leaf(Rule::AttributeValueNumeric, 11, 11)));
    mismatch(AttributeValue::from_node(text, &leaf(Rule::AttributeValueNumeric, 21, 41)));
    mismatch(AttributeValue::from_node(text, &leaf(Rule::AttributeValueString, 16, 200)));
    mismatch(AttributeValue::from_node(text, &leaf(Rule::AttributeValueString, 20, 16)));
    mismatch(AttributeValue::from_node(text, &leaf(Rule::AttributeValueString, 43, 44)));
    mismatch(AttributeValue::from_node(
        text,
        &node(Rule::AttributeValueString, 16, 20, vec![leaf(Rule::Ident, 16, 20)]),
    ));
    mismatch(AttributeValue::from_node(
        text,
        &node(
            Rule::AttributeValue,
            0,
            4,
            vec![leaf(Rule::AttributeValueBool, 0, 4), leaf(Rule::AttributeValueBool, 0, 4)],
        ),
    ));
    mismatch(AttributeValue::from_node(
        text,
        &node(
            Rule::AttributeValue,
            0,
            4,
            vec![node(Rule::AttributeValue, 0, 4, vec![leaf(Rule::AttributeValueBool, 0, 4)])],
        ),
    ));
}

#[test]
fn attribute_from_node() {
    let text = "rack=a12";
    let flag = node(Rule::Attribute, 0, 4, vec![leaf(Rule::Ident, 0, 4)]);
    assert_eq!(Attribute::from_node(text, &flag), Ok(Attribute { name: "rack", value: None }));
    let valued = node(
        Rule::Attribute,
        0,
        8,
        vec![
            leaf(Rule::Ident, 0, 4),
            node(Rule::AttributeValue, 5, 8, vec![leaf(Rule::AttributeValueString, 5, 8)]),
        ],
    );
    assert_eq!(
        Attribute::from_node(text, &valued),
        Ok(Attribute { name: "rack", value: Some(AttributeValue::String("a12")) })
    );
}

#[test]
fn attribute_of_an_unknown_shape_is_a_mismatch() {
    let text = "rack=a12";
    mismatch(Attribute::from_node(text, &leaf(Rule::Attribute, 0, 4)));
    mismatch(Attribute::from_node(text, &node(Rule::HostEntry, 0, 4, vec![leaf(Rule::Ident, 0, 4)])));
    mismatch(Attribute::from_node(
        text,
        &node(Rule::Attribute, 0, 4, vec![leaf(Rule::AttributeValueString, 0, 4)]),
    ));
    mismatch(Attribute::from_node(text, &node(Rule::Attribute, 0, 9, vec![leaf(Rule::Ident, 0, 9)])));
    mismatch(Attribute::from_node(
        text,
        &node(Rule::Attribute, 0, 8, vec![leaf(Rule::Ident, 0, 4), leaf(Rule::Ident, 5, 8)]),
    ));
    mismatch(Attribute::from_node(
        text,
        &node(
            Rule::Attribute,
            0,
            8,
            vec![
                leaf(Rule::Ident, 0, 4),
                leaf(Rule::AttributeValueString, 5, 8),
                leaf(Rule::AttributeValueString, 5, 8),
            ],
        ),
    ));
}

#[test]
fn host_entry_and_file_from_node() {
    let text = "n1 a=7,b\n";
    let tree = parse_tree(text).unwrap();
    let entry = HostEntry::from_node(text, &tree.children[0]).unwrap();
    assert_eq!(
        entry,
        HostEntry {
            name: "n1",
            attributes: vec![
                Attribute { name: "a", value: Some(AttributeValue::Number(7)) },
                Attribute { name: "b", value: None },
            ],
        }
    );
    let file = GendersFile::from_node(text, &tree).unwrap();
    assert_eq!(file, GendersFile { hosts: vec![entry] });
}

#[test]
fn host_entry_of_an_unknown_shape_is_a_mismatch() {
    let text = "n1 a=7,b\n";
    let tree = parse_tree(text).unwrap();
    mismatch(HostEntry::from_node(text, &tree));
    mismatch(HostEntry::from_node(text, &tree.children[0].children[1]));
    mismatch(HostEntry::from_node(text, &node(Rule::HostEntry, 0, 2, vec![leaf(Rule::Ident, 0, 2)])));
    mismatch(HostEntry::from_node(
        text,
        &node(Rule::HostEntry, 0, 2, vec![leaf(Rule::Ident, 0, 2), leaf(Rule::Ident, 3, 4)]),
    ));
    mismatch(HostEntry::from_node(
        text,
        &node(
            Rule::HostEntry,
            0,
            2,
            vec![
                leaf(Rule::Ident, 0, 2),
                node(Rule::AttributeList, 3, 4, vec![leaf(Rule::Ident, 3, 4)]),
            ],
        ),
    ));
}

#[test]
fn file_of_an_unknown_shape_is_a_mismatch() {
    let text = "n1 a=7,b\n";
    let tree = parse_tree(text).unwrap();
    mismatch(GendersFile::from_node(text, &tree.children[0]));
    mismatch(GendersFile::from_node(text, &leaf(Rule::GendersFile, 0, 9)));
    mismatch(GendersFile::from_node(
        text,
        &node(Rule::GendersFile, 0, 9, vec![leaf(Rule::EndOfInput, 9, 9), leaf(Rule::EndOfInput, 9, 9)]),
    ));
    let entry = || {
        node(Rule::HostEntry, 0, 2, vec![leaf(Rule::Ident, 0, 2), leaf(Rule::AttributeList, 2, 2)])
    };
    mismatch(GendersFile::from_node(text, &node(Rule::GendersFile, 0, 9, vec![entry()])));
    assert!(GendersFile::from_node(
        text,
        &node(Rule::GendersFile, 0, 9, vec![entry(), leaf(Rule::EndOfInput, 9, 9)])
    )
    .is_ok());
    mismatch(GendersFile::from_node(
        text,
        &node(
            Rule::GendersFile,
            0,
            9,
            vec![entry(), node(Rule::EndOfInput, 9, 9, vec![leaf(Rule::EndOfInput, 9, 9)])],
        ),
    ));
}
