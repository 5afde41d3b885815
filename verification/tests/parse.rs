use genders::error::{GendersError, SyntaxError};
use genders::model::Genders;
use genders::rule::Rule;
use genders::syntax::AttributeValue;

fn value<'a>(genders: &Genders<'a>, host: &str, attribute: &str) -> Option<Option<AttributeValue<'a>>> {
    genders.get(host, attribute)
}

fn syntax_error(text: &str) -> SyntaxError {
    match Genders::parse(text) {
        Err(GendersError::Syntax(e)) => e,
        other => panic!("expected a syntax error, got {:?}", other),
    }
}

#[test]
fn scenario_two_nodes() {
    let text = "node1 cpu_count=4,rack=a12,compute\nnode2 cpu_count=8,gpu=true\n";
    let genders = Genders::parse(text).unwrap();
    assert_eq!(genders.hosts(), vec!["node1", "node2"]);

    let node1 = genders.attributes("node1").unwrap();
    assert_eq!(node1.entries().len(), 3);
    assert_eq!(node1.get("cpu_count"), Some(Some(AttributeValue::Number(4))));
    assert_eq!(node1.get("rack"), Some(Some(AttributeValue::String("a12"))));
    assert_eq!(node1.get("compute"), Some(None));
    assert_eq!(node1.get("gpu"), None);

    let node2 = genders.attributes("node2").unwrap();
    assert_eq!(node2.entries().len(), 2);
    assert_eq!(node2.get("cpu_count"), Some(Some(AttributeValue::Number(8))));
    assert_eq!(node2.get("gpu"), Some(Some(AttributeValue::Boolean(true))));

    assert!(genders.attributes("node3").is_none());
}

#[test]
fn scenario_without_final_line_feed() {
    let text = "node1 cpu_count=4,rack=a12,compute\nnode2 cpu_count=8,gpu=true";
    let genders = Genders::parse(text).unwrap();
    assert_eq!(genders.hosts(), vec!["node1", "node2"]);
    assert_eq!(value(&genders, "node2", "gpu"), Some(Some(AttributeValue::Boolean(true))));
}

#[test]
fn empty_text_is_an_empty_model() {
    let genders = Genders::parse("").unwrap();
    assert!(genders.hosts().is_empty());
    assert!(genders.attributes("node1").is_none());
    assert!(!genders.contains_host(""));
}

#[test]
fn gaps_hold_no_hosts() {
    let genders = Genders::parse("\n\n  \t\r\n# only a comment\n   # another, = , #\n").unwrap();
    assert!(genders.hosts().is_empty());
    let genders = Genders::parse("# no line feed at the end").unwrap();
    assert!(genders.hosts().is_empty());
}

#[test]
fn comments_and_blank_lines_between_entries() {
    let text = "# cluster\n\nnode1 a=1   # first\n\n   node2\t b,c=x#y\r\nnode3\n";
    let genders = Genders::parse(text).unwrap();
    assert_eq!(genders.hosts(), vec!["node1", "node2", "node3"]);
    assert_eq!(value(&genders, "node1", "a"), Some(Some(AttributeValue::Number(1))));
    assert_eq!(value(&genders, "node2", "b"), Some(None));
    assert_eq!(value(&genders, "node2", "c"), Some(Some(AttributeValue::String("x"))));
    assert_eq!(genders.attributes("node3").unwrap().entries().len(), 0);
}

#[test]
fn host_without_attributes() {
    let genders = Genders::parse("lonely").unwrap();
    assert_eq!(genders.hosts(), vec!["lonely"]);
    assert!(genders.attributes("lonely").unwrap().entries().is_empty());
    assert!(genders.contains_host("lonely"));
    assert!(!genders.contains_host("lonel"));
}

#[test]
fn identifier_bytes() {
    let genders = Genders::parse("Node-1.example_org A.b-c_D=1").unwrap();
    assert_eq!(genders.hosts(), vec!["Node-1.example_org"]);
    assert_eq!(value(&genders, "Node-1.example_org", "A.b-c_D"), Some(Some(AttributeValue::Number(1))));
}

#[test]
fn duplicate_host_is_rejected() {
    let r = Genders::parse("hostA foo\nhostB bar\nhostA baz=1\n");
    assert_eq!(r.err(), Some(GendersError::DuplicateHost { host: "hostA" }));
}

#[test]
fn duplicate_host_with_same_attributes_is_rejected() {
    let r = Genders::parse("hostA foo\nhostA foo\n");
    assert_eq!(r.err(), Some(GendersError::DuplicateHost { host: "hostA" }));
}

#[test]
fn duplicate_attribute_is_rejected() {
    let r = Genders::parse("hostA foo,bar,foo\n");
    assert_eq!(r.err(), Some(GendersError::DuplicateAttribute { host: "hostA", attribute: "foo" }));
}

#[test]
fn duplicate_attribute_with_other_value_is_rejected() {
    let r = Genders::parse("hostA foo=1,bar,foo=two\n");
    assert_eq!(r.err(), Some(GendersError::DuplicateAttribute { host: "hostA", attribute: "foo" }));
}

#[test]
fn first_duplicate_in_text_order_decides() {
    let r = Genders::parse("a x\nb y,y\na z\n");
    assert_eq!(r.err(), Some(GendersError::DuplicateAttribute { host: "b", attribute: "y" }));
    let r = Genders::parse("a x\na z\nb y,y\n");
    assert_eq!(r.err(), Some(GendersError::DuplicateHost { host: "a" }));
    let r = Genders::parse("a x\na y,z,y,z\n");
    assert_eq!(r.err(), Some(GendersError::DuplicateAttribute { host: "a", attribute: "y" }));
}

#[test]
fn same_attribute_under_two_hosts() {
    let genders = Genders::parse("a x=1\nb x=2\n").unwrap();
    assert_eq!(value(&genders, "a", "x"), Some(Some(AttributeValue::Number(1))));
    assert_eq!(value(&genders, "b", "x"), Some(Some(AttributeValue::Number(2))));
}

#[test]
fn names_differ_by_case() {
    let genders = Genders::parse("a x,X\nA x\n").unwrap();
    assert_eq!(genders.hosts(), vec!["a", "A"]);
    assert_eq!(genders.attributes("a").unwrap().entries().len(), 2);
}

#[test]
fn boolean_values() {
    let genders = Genders::parse("n t=true,f=false").unwrap();
    assert_eq!(value(&genders, "n", "t"), Some(Some(AttributeValue::Boolean(true))));
    assert_eq!(value(&genders, "n", "f"), Some(Some(AttributeValue::Boolean(false))));
}

#[test]
fn almost_boolean_values_are_strings() {
    let genders = Genders::parse("n a=True,b=truee,c=tru,d=false0,e=FALSE,f=true=").unwrap();
    assert_eq!(value(&genders, "n", "a"), Some(Some(AttributeValue::String("True"))));
    assert_eq!(value(&genders, "n", "b"), Some(Some(AttributeValue::String("truee"))));
    assert_eq!(value(&genders, "n", "c"), Some(Some(AttributeValue::String("tru"))));
    assert_eq!(value(&genders, "n", "d"), Some(Some(AttributeValue::String("false0"))));
    assert_eq!(value(&genders, "n", "e"), Some(Some(AttributeValue::String("FALSE"))));
    assert_eq!(value(&genders, "n", "f"), Some(Some(AttributeValue::String("true="))));
}

#[test]
fn numeric_values() {
    let genders = Genders::parse("n a=0,b=007,c=18446744073709551615,d=00018446744073709551615,e=1234567890").unwrap();
    assert_eq!(value(&genders, "n", "a"), Some(Some(AttributeValue::Number(0))));
    assert_eq!(value(&genders, "n", "b"), Some(Some(AttributeValue::Number(7))));
    assert_eq!(value(&genders, "n", "c"), Some(Some(AttributeValue::Number(u64::MAX))));
    assert_eq!(value(&genders, "n", "d"), Some(Some(AttributeValue::Number(u64::MAX))));
    assert_eq!(value(&genders, "n", "e"), Some(Some(AttributeValue::Number(1234567890))));
}

#[test]
fn number_beyond_64_bits_is_a_syntax_error() {
    let e = syntax_error("n a=1,b=18446744073709551616\n");
    assert_eq!(e, SyntaxError { offset: 8, line: 1, expected: Rule::AttributeValueNumeric });
    let e = syntax_error("n b=99999999999999999999999999999999");
    assert_eq!(e, SyntaxError { offset: 4, line: 1, expected: Rule::AttributeValueNumeric });
    let e = syntax_error("n b=184467440737095516150");
    assert_eq!(e.expected, Rule::AttributeValueNumeric);
}

#[test]
fn almost_numeric_values_are_strings() {
    let genders = Genders::parse("n a=a12,b=12a,c=-1,d=+1,e=1.5,f=0x10,g=1_000").unwrap();
    assert_eq!(value(&genders, "n", "a"), Some(Some(AttributeValue::String("a12"))));
    assert_eq!(value(&genders, "n", "b"), Some(Some(AttributeValue::String("12a"))));
    assert_eq!(value(&genders, "n", "c"), Some(Some(AttributeValue::String("-1"))));
    assert_eq!(value(&genders, "n", "d"), Some(Some(AttributeValue::String("+1"))));
    assert_eq!(value(&genders, "n", "e"), Some(Some(AttributeValue::String("1.5"))));
    assert_eq!(value(&genders, "n", "f"), Some(Some(AttributeValue::String("0x10"))));
    assert_eq!(value(&genders, "n", "g"), Some(Some(AttributeValue::String("1_000"))));
}

#[test]
fn string_values_keep_their_bytes() {
    let text = "n path=/usr/local/bin:/bin,eq=a=b=c,q=\"quoted\",u=gr\u{fc}\u{df}e-\u{65e5}\u{672c}\u{8a9e}-\u{1f600},z=\\n";
    let genders = Genders::parse(text).unwrap();
    assert_eq!(value(&genders, "n", "path"), Some(Some(AttributeValue::String("/usr/local/bin:/bin"))));
    assert_eq!(value(&genders, "n", "eq"), Some(Some(AttributeValue::String("a=b=c"))));
    assert_eq!(value(&genders, "n", "q"), Some(Some(AttributeValue::String("\"quoted\""))));
    assert_eq!(
        value(&genders, "n", "u"),
        Some(Some(AttributeValue::String("gr\u{fc}\u{df}e-\u{65e5}\u{672c}\u{8a9e}-\u{1f600}")))
    );
    assert_eq!(value(&genders, "n", "z"), Some(Some(AttributeValue::String("\\n"))));
}

#[test]
fn string_value_borrows_from_the_text() {
    let text = String::from("node rack=a12");
    let genders = Genders::parse(&text).unwrap();
    match genders.get("node", "rack") {
        Some(Some(AttributeValue::String(s))) => {
            assert_eq!(s.as_ptr(), text[10..].as_ptr());
            assert_eq!(s.len(), 3);
        }
        other => panic!("expected a string, got {:?}", other),
    }
}

#[test]
fn flag_is_not_an_empty_string() {
    let genders = Genders::parse("n flag,valued=x").unwrap();
    assert_eq!(value(&genders, "n", "flag"), Some(None));
    assert_ne!(value(&genders, "n", "flag"), Some(Some(AttributeValue::String(""))));
    assert_eq!(value(&genders, "n", "valued"), Some(Some(AttributeValue::String("x"))));
    assert_eq!(value(&genders, "n", "absent"), None);
    assert!(genders.attributes("n").unwrap().contains("flag"));
    assert!(!genders.attributes("n").unwrap().contains("absent"));
}

#[test]
fn missing_value_is_a_syntax_error() {
    let e = syntax_error("n a=");
    assert_eq!(e, SyntaxError { offset: 4, line: 1, expected: Rule::AttributeValue });
    let e = syntax_error("n a=,b");
    assert_eq!(e, SyntaxError { offset: 4, line: 1, expected: Rule::AttributeValue });
    let e = syntax_error("n a= b");
    assert_eq!(e, SyntaxError { offset: 4, line: 1, expected: Rule::AttributeValue });
    let e = syntax_error("n a=\n");
    assert_eq!(e, SyntaxError { offset: 4, line: 1, expected: Rule::AttributeValue });
}

#[test]
fn unterminated_attribute_list_is_a_syntax_error() {
    let e = syntax_error("node1 a=1,b,");
    assert_eq!(e, SyntaxError { offset: 12, line: 1, expected: Rule::Attribute });
    let e = syntax_error("node1 a=1,b,\nnode2 c\n");
    assert_eq!(e, SyntaxError { offset: 12, line: 1, expected: Rule::Attribute });
    let e = syntax_error("node1 a,,b");
    assert_eq!(e, SyntaxError { offset: 8, line: 1, expected: Rule::Attribute });
    let e = syntax_error("node1 a, b");
    assert_eq!(e, SyntaxError { offset: 8, line: 1, expected: Rule::Attribute });
}

#[test]
fn host_entry_without_identifier_is_a_syntax_error() {
    let e = syntax_error("=4\n");
    assert_eq!(e, SyntaxError { offset: 0, line: 1, expected: Rule::HostEntry });
    let e = syntax_error("node1 a\n  ,b\n");
    assert_eq!(e, SyntaxError { offset: 10, line: 2, expected: Rule::HostEntry });
    let e = syntax_error("node1 a\n\n\n@node2 b\n");
    assert_eq!(e, SyntaxError { offset: 10, line: 4, expected: Rule::HostEntry });
    let e = syntax_error("\u{e9}t\u{e9} a");
    assert_eq!(e, SyntaxError { offset: 0, line: 1, expected: Rule::HostEntry });
}

#[test]
fn text_after_the_attribute_list_is_a_syntax_error() {
    let e = syntax_error("node1 a=1 b=2\n");
    assert_eq!(e, SyntaxError { offset: 10, line: 1, expected: Rule::EndOfInput });
    let e = syntax_error("node1=3");
    assert_eq!(e, SyntaxError { offset: 5, line: 1, expected: Rule::EndOfInput });
    let e = syntax_error("x\nnode1 a@b");
    assert_eq!(e, SyntaxError { offset: 9, line: 2, expected: Rule::EndOfInput });
    let e = syntax_error("node1 ,a");
    assert_eq!(e, SyntaxError { offset: 6, line: 1, expected: Rule::EndOfInput });
    let e = syntax_error("n a\nn\u{e9} b");
    assert_eq!(e, SyntaxError { offset: 5, line: 2, expected: Rule::EndOfInput });
}

#[test]
fn syntax_error_comes_before_duplicates() {
    let e = syntax_error("a x,x\na y\nb z=\n");
    assert_eq!(e, SyntaxError { offset: 14, line: 3, expected: Rule::AttributeValue });
}

#[test]
fn parse_never_reports_a_shape_mismatch() {
    let texts = [
        "", "a", "a b", "a b=", "a b=c,", "=", ",", "#", "a\n", "a b=true", "a b=1", "a b=x",
        "a b=\u{e9}", "\u{e9}", "a b=c d", "a b,b", "a\na",
    ];
    for text in texts {
        assert_ne!(Genders::parse(text).err(), Some(GendersError::InternalShapeMismatch));
    }
}

#[test]
fn round_trip_of_distinct_names() {
    let hosts = ["n0", "n1", "n2", "n3", "n4", "n5", "n6", "n7"];
    let mut text = String::new();
    for (i, host) in hosts.iter().enumerate() {
        text.push_str(host);
        text.push_str(" index=");
        text.push_str(&format!("{}", i));
        text.push_str(",name=");
        text.push_str(host);
        text.push_str(",flag");
        text.push_str(&format!("{}", i));
        text.push('\n');
    }
    let genders = Genders::parse(&text).unwrap();
    assert_eq!(genders.hosts(), hosts.to_vec());
    for (i, host) in hosts.iter().enumerate() {
        let attributes = genders.attributes(host).unwrap();
        assert_eq!(attributes.entries().len(), 3);
        assert_eq!(attributes.get("index"), Some(Some(AttributeValue::Number(i as u64))));
        assert_eq!(attributes.get("name"), Some(Some(AttributeValue::String(host))));
        assert_eq!(attributes.get(&format!("flag{}", i)), Some(None));
        assert_eq!(attributes.get(&format!("flag{}", i + 1)), None);
    }
}
