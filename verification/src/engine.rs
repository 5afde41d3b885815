//! The grammar engine: reads a text into its syntax tree, or stops at the
//! first byte that fits nowhere.

use vstd::prelude::*;
use vstd::string::StringSliceAdditionalSpecFns;
use crate::bytes::{
    lemma_line_feeds_bound, line_feeds_before, line_of, scan, skip_gap, ByteClass, COMMA, EQUALS,
    HASH, LINE_FEED,
};
use crate::error::SyntaxError;
use crate::grammar::{
    attribute, attribute_list, attribute_value, attributes, genders_file, host_entries, host_entry,
    ident, is_fault_position, lemma_attributes_span, lemma_fault_position, Fault, Tree,
};
use crate::number::{is_digit_word, is_false_word, is_true_word, read_decimal};
use crate::rule::Rule;
use crate::tree::{lemma_children, views, Node};

verus! {

/// The fault that a reader reports when it stops at a position, expecting
/// a production there.
spec fn fault_of(stop: (usize, Rule)) -> Fault {
    Fault { offset: stop.0 as int, expected: stop.1 }
}

/// What a reader of one node found, as the grammar states it.
spec fn tree_outcome(r: Result<Node, (usize, Rule)>) -> Result<Tree, Fault> {
    match r {
        Ok(node) => Ok(node@),
        Err(stop) => Err(fault_of(stop)),
    }
}

/// What a reader of several nodes found, as the grammar states it.
spec fn list_outcome(r: Result<Vec<Node>, (usize, Rule)>) -> Result<Seq<Tree>, Fault> {
    match r {
        Ok(nodes) => Ok(views(nodes@)),
        Err(stop) => Err(fault_of(stop)),
    }
}

/// The trees `items`, followed by what `rest` holds, where `rest` is no
/// fault.
spec fn prepend(items: Seq<Tree>, rest: Result<Seq<Tree>, Fault>) -> Result<
    Seq<Tree>,
    Fault,
> {
    match rest {
        Ok(more) => Ok(items + more),
        Err(fault) => Err(fault),
    }
}

/// Reads the identifier at `at`, if one starts there.
fn read_ident(bytes: &[u8], at: usize) -> (r: Option<Node>)
    requires
        at <= bytes@.len(),
    ensures
        match r {
            Some(node) => ident(bytes@, at as int) == Some(node@) && node.start == at && at
                < node.end <= bytes@.len(),
            None => ident(bytes@, at as int) is None,
        },
{
    let end = scan(bytes, at, ByteClass::Ident);
    if end > at {
        Some(Node::leaf(Rule::Ident, at, end))
    } else {
        None
    }
}

/// Reads the attribute value at `at` and tags it with its typed form.
fn read_value(bytes: &[u8], at: usize) -> (r: Result<Node, (usize, Rule)>)
    requires
        at <= bytes@.len(),
    ensures
        attribute_value(bytes@, at as int) == tree_outcome(r),
        r matches Ok(node) ==> node.start == at && at < node.end <= bytes@.len(),
{
    let end = scan(bytes, at, ByteClass::Value);
    if end <= at {
        return Err((at, Rule::AttributeValue));
    }
    let rule = if is_true_word(bytes, at, end) || is_false_word(bytes, at, end) {
        Rule::AttributeValueBool
    } else if is_digit_word(bytes, at, end) {
        if read_decimal(bytes, at, end).is_none() {
            return Err((at, Rule::AttributeValueNumeric));
        }
        Rule::AttributeValueNumeric
    } else {
        Rule::AttributeValueString
    };
    let mut children: Vec<Node> = Vec::new();
    children.push(Node::leaf(rule, at, end));
    let node = Node::new(Rule::AttributeValue, at, end, children);
    assert(node@.children =~= seq![crate::grammar::leaf(rule, at as int, end as int)]);
    Ok(node)
}

/// Reads the attribute at `at`: its name, and its value where `=` follows.
fn read_attribute(bytes: &[u8], at: usize) -> (r: Result<Node, (usize, Rule)>)
    requires
        at <= bytes@.len(),
    ensures
        attribute(bytes@, at as int) == tree_outcome(r),
        r matches Ok(node) ==> node.start == at && at < node.end <= bytes@.len(),
{
    let name = match read_ident(bytes, at) {
        None => {
            return Err((at, Rule::Attribute));
        },
        Some(name) => name,
    };
    let name_end = name.end;
    let ghost name_tree = name@;
    proof {
        lemma_children(&name);
    }
    let mut children: Vec<Node> = Vec::new();
    children.push(name);
    if name_end < bytes.len() && bytes[name_end] == EQUALS {
        match read_value(bytes, name_end + 1) {
            Err(stop) => Err(stop),
            Ok(value) => {
                let end = value.end;
                let ghost value_tree = value@;
                proof {
                    lemma_children(&value);
                }
                children.push(value);
                let node = Node::new(Rule::Attribute, at, end, children);
                assert(node@.children =~= seq![name_tree, value_tree]);
                Ok(node)
            },
        }
    } else {
        let node = Node::new(Rule::Attribute, at, name_end, children);
        assert(node@.children =~= seq![name_tree]);
        Ok(node)
    }
}

/// Reads the attribute at `at` and those behind each `,` that follows one.
fn read_attributes(bytes: &[u8], at: usize) -> (r: Result<Vec<Node>, (usize, Rule)>)
    requires
        at <= bytes@.len(),
    ensures
        attributes(bytes@, at as int) == list_outcome(r),
{
    let mut items: Vec<Node> = Vec::new();
    let mut pos: usize = at;
    loop
        invariant
            pos <= bytes@.len(),
            attributes(bytes@, at as int) == prepend(views(items@), attributes(bytes@, pos as int)),
        decreases bytes@.len() - pos,
    {
        match read_attribute(bytes, pos) {
            Err(stop) => {
                return Err(stop);
            },
            Ok(node) => {
                let end = node.end;
                let ghost before = views(items@);
                let ghost first = node@;
                proof {
                    lemma_children(&node);
                }
                items.push(node);
                assert(views(items@) =~= before.push(first));
                if end < bytes.len() && bytes[end] == COMMA {
                    proof {
                        if let Ok(more) = attributes(bytes@, end + 1) {
                            assert(before + (seq![first] + more) =~= before.push(first) + more);
                        }
                    }
                    pos = end + 1;
                } else {
                    assert(before + seq![first] =~= before.push(first));
                    return Ok(items);
                }
            },
        }
    }
}

/// Reads the attribute list at `at`, which is empty where no identifier
/// starts.
fn read_attribute_list(bytes: &[u8], at: usize) -> (r: Result<Node, (usize, Rule)>)
    requires
        at <= bytes@.len(),
    ensures
        attribute_list(bytes@, at as int) == tree_outcome(r),
        r matches Ok(node) ==> node.start == at && at <= node.end <= bytes@.len(),
{
    if at < bytes.len() && ByteClass::Ident.contains(bytes[at]) {
        match read_attributes(bytes, at) {
            Err(stop) => Err(stop),
            Ok(items) => {
                proof {
                    lemma_attributes_span(bytes@, at as int);
                    lemma_children(&items[items.len() - 1]);
                }
                let end = items[items.len() - 1].end;
                Ok(Node::new(Rule::AttributeList, at, end, items))
            },
        }
    } else {
        Ok(Node::leaf(Rule::AttributeList, at, at))
    }
}

/// Reads the host entry at `at`, up to the end of its line.
fn read_host_entry(bytes: &[u8], at: usize) -> (r: Result<Node, (usize, Rule)>)
    requires
        at <= bytes@.len(),
    ensures
        host_entry(bytes@, at as int) == tree_outcome(r),
        r matches Ok(node) ==> node.start == at && at < node.end <= bytes@.len(),
{
    let name = match read_ident(bytes, at) {
        None => {
            return Err((at, Rule::HostEntry));
        },
        Some(name) => name,
    };
    let ghost name_tree = name@;
    proof {
        lemma_children(&name);
    }
    let list_at = scan(bytes, name.end, ByteClass::Blank);
    match read_attribute_list(bytes, list_at) {
        Err(stop) => Err(stop),
        Ok(list) => {
            let ghost list_tree = list@;
            proof {
                lemma_children(&list);
            }
            let end = list.end;
            let rest = scan(bytes, end, ByteClass::Blank);
            if rest >= bytes.len() || bytes[rest] == LINE_FEED || bytes[rest] == HASH {
                let mut children: Vec<Node> = Vec::new();
                children.push(name);
                children.push(list);
                let node = Node::new(Rule::HostEntry, at, end, children);
                assert(node@.children =~= seq![name_tree, list_tree]);
                Ok(node)
            } else {
                Err((rest, Rule::EndOfInput))
            }
        },
    }
}

/// Reads the host entries of the whole text, and the gaps between them.
fn read_host_entries(bytes: &[u8]) -> (r: Result<Vec<Node>, (usize, Rule)>)
    ensures
        host_entries(bytes@, 0) == list_outcome(r),
{
    let mut hosts: Vec<Node> = Vec::new();
    let mut pos: usize = 0;
    loop
        invariant
            pos <= bytes@.len(),
            host_entries(bytes@, 0) == prepend(views(hosts@), host_entries(bytes@, pos as int)),
        decreases bytes@.len() - pos,
    {
        let start = skip_gap(bytes, pos);
        if start >= bytes.len() {
            return Ok(hosts);
        }
        match read_host_entry(bytes, start) {
            Err(stop) => {
                return Err(stop);
            },
            Ok(node) => {
                let end = node.end;
                let ghost before = views(hosts@);
                let ghost first = node@;
                proof {
                    lemma_children(&node);
                    if let Ok(more) = host_entries(bytes@, end as int) {
                        assert(before + (seq![first] + more) =~= before.push(first) + more);
                    }
                }
                hosts.push(node);
                assert(views(hosts@) =~= before.push(first));
                pos = end;
            },
        }
    }
}

/// The number of the line that holds `offset`.
fn line_number(bytes: &[u8], offset: usize) -> (line: usize)
    requires
        is_fault_position(bytes@, offset as int),
    ensures
        line == line_of(bytes@, offset as int),
{
    let mut feeds: usize = 0;
    let mut i: usize = 0;
    while i < offset
        invariant
            i <= offset <= bytes@.len(),
            feeds == line_feeds_before(bytes@, i as int),
            feeds <= i,
        decreases offset - i,
    {
        if bytes[i] == LINE_FEED {
            feeds += 1;
        }
        i += 1;
    }
    let len = bytes.len();
    proof {
        if offset > 0 {
            lemma_line_feeds_bound(bytes@, offset as int, offset - 1);
        }
        assert(feeds < len || feeds < offset);
    }
    feeds + 1
}

/// Reads a genders file into its syntax tree.
///
/// Returns the tree that the grammar gives the text, with the host entries
/// in the order of the text. Where the text is no genders file, returns the
/// grammar's fault: the offset of the first byte that fits nowhere, the
/// number of its line, and the production that was expected there.
pub fn parse_tree(text: &str) -> (r: Result<Node, SyntaxError>)
    ensures
        match r {
            Ok(node) => genders_file(text.spec_bytes()) == Ok::<Tree, Fault>(node@),
            Err(e) => genders_file(text.spec_bytes()) == Err::<Tree, Fault>(e@) && e.line
                == line_of(text.spec_bytes(), e.offset as int),
        },
{
    let bytes = text.as_bytes();
    match read_host_entries(bytes) {
        Err(stop) => {
            proof {
                lemma_fault_position(bytes@);
            }
            let line = line_number(bytes, stop.0);
            Err(SyntaxError { offset: stop.0, line, expected: stop.1 })
        },
        Ok(hosts) => {
            let len = bytes.len();
            let ghost before = views(hosts@);
            let mut children = hosts;
            children.push(Node::leaf(Rule::EndOfInput, len, len));
            assert(views(children@) =~= before.push(
                crate::grammar::leaf(Rule::EndOfInput, len as int, len as int),
            ));
            Ok(Node::new(Rule::GendersFile, 0, len, children))
        },
    }
}

} // verus!
