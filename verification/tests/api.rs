use genders::number::write_decimal;
use genders::{AttributeValue, Genders, GendersError, GendersFile, HostEntry, Rule, SyntaxError};

#[test]
fn try_from_text() {
    let genders = Genders::try_from("node1 cpus=4\n").unwrap();
    assert_eq!(genders.get("node1", "cpus"), Some(Some(AttributeValue::Number(4))));
    let r = Genders::try_from("node1 cpus=4,cpus=8\n");
    assert_eq!(r.err(), Some(GendersError::DuplicateAttribute { host: "node1", attribute: "cpus" }));
}

#[test]
fn try_from_file() {
    let file = GendersFile { hosts: vec![HostEntry { name: "n", attributes: vec![] }] };
    let genders = Genders::try_from(file).unwrap();
    assert_eq!(genders.hosts(), vec!["n"]);
    let file = GendersFile {
        hosts: vec![
            HostEntry { name: "n", attributes: vec![] },
            HostEntry { name: "n", attributes: vec![] },
        ],
    };
    assert_eq!(Genders::try_from(file).err(), Some(GendersError::DuplicateHost { host: "n" }));
}

#[test]
fn decimal_digits_of_a_number() {
    assert_eq!(write_decimal(0), "0");
    assert_eq!(write_decimal(7), "7");
    assert_eq!(write_decimal(10), "10");
    assert_eq!(write_decimal(1234567890), "1234567890");
    assert_eq!(write_decimal(usize::MAX), format!("{}", usize::MAX));
}

#[test]
fn rule_names() {
    assert_eq!(Rule::GendersFile.name(), "genders_file");
    assert_eq!(Rule::HostEntry.name(), "host_entry");
    assert_eq!(Rule::Ident.name(), "ident");
    assert_eq!(Rule::AttributeList.name(), "attribute_list");
    assert_eq!(Rule::Attribute.name(), "attribute");
    assert_eq!(Rule::AttributeValue.name(), "attribute_value");
    assert_eq!(Rule::AttributeValueBool.name(), "attribute_value_bool");
    assert_eq!(Rule::AttributeValueNumeric.name(), "attribute_value_numeric");
    assert_eq!(Rule::AttributeValueString.name(), "attribute_value_string");
    assert_eq!(Rule::EndOfInput.name(), "end_of_input");
}

#[test]
fn messages_of_duplicates() {
    let e = Genders::parse("hostA foo\nhostA bar\n").unwrap_err();
    assert_eq!(e.message(), "Duplicate host hostA");
    let e = Genders::parse("hostA foo,foo\n").unwrap_err();
    assert_eq!(e.message(), "Duplicate attribute foo on host hostA");
}

#[test]
fn message_of_a_syntax_error() {
    let e = Genders::parse("a b\nc d=\n").unwrap_err();
    assert_eq!(e.message(), "Syntax error at byte 8 (line 2): expected attribute_value");
    let e = SyntaxError { offset: 120, line: 13, expected: Rule::EndOfInput };
    assert_eq!(e.message(), "Syntax error at byte 120 (line 13): expected end_of_input");
}

#[test]
fn message_of_a_shape_mismatch() {
    assert_eq!(GendersError::InternalShapeMismatch.message(), "Syntax tree of an unknown shape");
}

#[test]
fn line_feed_ends_its_own_line() {
    let e = Genders::parse("a b=\n\n").unwrap_err();
    assert_eq!(e, GendersError::Syntax(SyntaxError { offset: 4, line: 1, expected: Rule::AttributeValue }));
    let e = Genders::parse("a\r\nb c,\r\n").unwrap_err();
    assert_eq!(e, GendersError::Syntax(SyntaxError { offset: 7, line: 2, expected: Rule::Attribute }));
}
