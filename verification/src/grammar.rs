//! The grammar of a genders file, as functions from the text to a syntax
//! tree or a fault.
//!
//! ```text
//! genders_file    = gap (host_entry gap)* end_of_input
//! host_entry      = ident blank* attribute_list blank* &(line_feed | "#" | end_of_input)
//! attribute_list  = (attribute ("," attribute)*)?
//! attribute       = ident ("=" attribute_value)?
//! attribute_value = attribute_value_bool | attribute_value_numeric | attribute_value_string
//! ident           = (letter | digit | "_" | "-" | ".")+
//! gap             = (blank | line_feed | "#" (!line_feed any)*)*
//! ```
//!
//! An attribute value is the longest run of value bytes. It is a boolean if
//! it spells `true` or `false`, a number if it is made of decimal digits
//! only, and a string otherwise. A word of digits that denotes more than 64
//! bits can hold is a fault, not a string.

use vstd::prelude::*;
use crate::bytes::{
    gap_end, is_ident_byte, lemma_gap_end, lemma_run_end, run_end, ByteClass, COMMA, EQUALS, HASH,
    LINE_FEED,
};
use crate::number::{all_digits, decimal_value, false_word, true_word};
use crate::rule::Rule;

verus! {

/// A node of a syntax tree: the production that matched, the bytes that it
/// matched, from `start` up to `end`, and the nodes of the productions
/// inside it.
pub struct Tree {
    pub rule: Rule,
    pub start: int,
    pub end: int,
    pub children: Seq<Tree>,
}

/// Why a text is not a genders file: the position of the first byte that
/// fits nowhere, and the production that was expected there.
pub struct Fault {
    pub offset: int,
    pub expected: Rule,
}

/// A node without children.
pub open spec fn leaf(rule: Rule, start: int, end: int) -> Tree {
    Tree { rule, start, end, children: Seq::empty() }
}

/// The bytes that a node matched.
pub open spec fn matched(s: Seq<u8>, t: Tree) -> Seq<u8> {
    s.subrange(t.start, t.end)
}

/// An identifier at `at`: the longest run of identifier bytes, if there is
/// at least one.
pub open spec fn ident(s: Seq<u8>, at: int) -> Option<Tree> {
    let end = run_end(s, at, ByteClass::Ident);
    if end > at {
        Some(leaf(Rule::Ident, at, end))
    } else {
        None
    }
}

/// The typed form of a value word: boolean before number before string.
pub open spec fn value_rule(word: Seq<u8>) -> Rule {
    if word == true_word() || word == false_word() {
        Rule::AttributeValueBool
    } else if all_digits(word) {
        Rule::AttributeValueNumeric
    } else {
        Rule::AttributeValueString
    }
}

/// An attribute value at `at`: the longest run of value bytes, which must
/// not be empty, under the typed form that its word has.
pub open spec fn attribute_value(s: Seq<u8>, at: int) -> Result<Tree, Fault> {
    let end = run_end(s, at, ByteClass::Value);
    let word = s.subrange(at, end);
    if end <= at {
        Err(Fault { offset: at, expected: Rule::AttributeValue })
    } else if value_rule(word) == Rule::AttributeValueNumeric && decimal_value(word) > u64::MAX {
        Err(Fault { offset: at, expected: Rule::AttributeValueNumeric })
    } else {
        Ok(
            Tree {
                rule: Rule::AttributeValue,
                start: at,
                end,
                children: seq![leaf(value_rule(word), at, end)],
            },
        )
    }
}

/// An attribute at `at`: an identifier, and a value if `=` follows it.
pub open spec fn attribute(s: Seq<u8>, at: int) -> Result<Tree, Fault> {
    match ident(s, at) {
        None => Err(Fault { offset: at, expected: Rule::Attribute }),
        Some(name) => {
            if name.end < s.len() && s[name.end] == EQUALS {
                match attribute_value(s, name.end + 1) {
                    Ok(value) => Ok(
                        Tree {
                            rule: Rule::Attribute,
                            start: at,
                            end: value.end,
                            children: seq![name, value],
                        },
                    ),
                    Err(fault) => Err(fault),
                }
            } else {
                Ok(Tree { rule: Rule::Attribute, start: at, end: name.end, children: seq![name] })
            }
        },
    }
}

/// An attribute that was matched at `at` starts there, is not empty and
/// ends inside the text.
pub proof fn lemma_attribute_span(s: Seq<u8>, at: int)
    ensures
        attribute(s, at) matches Ok(t) ==> t.rule == Rule::Attribute && t.start == at && 0 <= at
            < t.end <= s.len(),
{
    if 0 <= at <= s.len() {
        lemma_run_end(s, at, ByteClass::Ident);
        let end = run_end(s, at, ByteClass::Ident);
        if end < s.len() {
            lemma_run_end(s, end + 1, ByteClass::Value);
        }
    }
}

/// One attribute at `at`, and more after each `,` that follows one.
pub open spec fn attributes(s: Seq<u8>, at: int) -> Result<Seq<Tree>, Fault>
    decreases s.len() - at,
{
    match attribute(s, at) {
        Err(fault) => Err(fault),
        Ok(first) => {
            if first.end < s.len() && s[first.end] == COMMA {
                proof {
                    lemma_attribute_span(s, at);
                }
                match attributes(s, first.end + 1) {
                    Ok(rest) => Ok(seq![first] + rest),
                    Err(fault) => Err(fault),
                }
            } else {
                Ok(seq![first])
            }
        },
    }
}

/// The attribute list at `at`: empty where no identifier starts, else the
/// attributes from there on.
pub open spec fn attribute_list(s: Seq<u8>, at: int) -> Result<Tree, Fault> {
    if 0 <= at < s.len() && is_ident_byte(s[at]) {
        match attributes(s, at) {
            Ok(items) => Ok(
                Tree { rule: Rule::AttributeList, start: at, end: items.last().end, children: items },
            ),
            Err(fault) => Err(fault),
        }
    } else {
        Ok(leaf(Rule::AttributeList, at, at))
    }
}

/// Whether a host entry may end at `at`: at the end of the text, before a
/// line feed or before a comment.
pub open spec fn at_line_end(s: Seq<u8>, at: int) -> bool {
    at >= s.len() || s[at] == LINE_FEED || s[at] == HASH
}

/// A host entry at `at`: an identifier, white space, the attribute list,
/// and white space up to the end of the line.
pub open spec fn host_entry(s: Seq<u8>, at: int) -> Result<Tree, Fault> {
    match ident(s, at) {
        None => Err(Fault { offset: at, expected: Rule::HostEntry }),
        Some(name) => {
            match attribute_list(s, run_end(s, name.end, ByteClass::Blank)) {
                Err(fault) => Err(fault),
                Ok(list) => {
                    let rest = run_end(s, list.end, ByteClass::Blank);
                    if at_line_end(s, rest) {
                        Ok(
                            Tree {
                                rule: Rule::HostEntry,
                                start: at,
                                end: list.end,
                                children: seq![name, list],
                            },
                        )
                    } else {
                        Err(Fault { offset: rest, expected: Rule::EndOfInput })
                    }
                },
            }
        },
    }
}

/// A host entry that was matched at `at` starts there, is not empty and
/// ends inside the text.
pub proof fn lemma_host_entry_span(s: Seq<u8>, at: int)
    ensures
        host_entry(s, at) matches Ok(t) ==> t.rule == Rule::HostEntry && t.start == at && 0 <= at
            < t.end <= s.len(),
{
    if 0 <= at <= s.len() {
        lemma_run_end(s, at, ByteClass::Ident);
        let name_end = run_end(s, at, ByteClass::Ident);
        lemma_run_end(s, name_end, ByteClass::Blank);
        lemma_attribute_list_span(s, run_end(s, name_end, ByteClass::Blank));
    }
}

/// The attributes that were matched at `at` lie one after the other, from
/// `at` on and inside the text.
pub proof fn lemma_attributes_span(s: Seq<u8>, at: int)
    ensures
        attributes(s, at) matches Ok(items) ==> items.len() > 0 && items[0].start == at && 0 <= at
            < items.last().end <= s.len(),
    decreases s.len() - at,
{
    lemma_attribute_span(s, at);
    if let Ok(first) = attribute(s, at) {
        if first.end < s.len() && s[first.end] == COMMA {
            lemma_attributes_span(s, first.end + 1);
        }
    }
}

/// An attribute list that was matched at `at` starts there and ends inside
/// the text.
pub proof fn lemma_attribute_list_span(s: Seq<u8>, at: int)
    requires
        0 <= at <= s.len(),
    ensures
        attribute_list(s, at) matches Ok(t) ==> t.rule == Rule::AttributeList && t.start == at
            && at <= t.end <= s.len(),
{
    lemma_attributes_span(s, at);
}

/// The host entries from `at` on: after the gap at `at`, none at the end of
/// the text, else one and those that follow it.
pub open spec fn host_entries(s: Seq<u8>, at: int) -> Result<Seq<Tree>, Fault>
    decreases s.len() - at,
{
    let start = gap_end(s, at, false);
    if start >= s.len() {
        Ok(Seq::empty())
    } else {
        match host_entry(s, start) {
            Err(fault) => Err(fault),
            Ok(first) => {
                proof {
                    lemma_host_entry_span(s, start);
                    if 0 <= at {
                        lemma_gap_end(s, at, false);
                    }
                }
                match host_entries(s, first.end) {
                    Ok(rest) => Ok(seq![first] + rest),
                    Err(fault) => Err(fault),
                }
            },
        }
    }
}

/// The syntax tree of a genders file: its host entries in the order of the
/// text, and the end of the input after them.
pub open spec fn genders_file(s: Seq<u8>) -> Result<Tree, Fault> {
    match host_entries(s, 0) {
        Ok(hosts) => Ok(
            Tree {
                rule: Rule::GendersFile,
                start: 0,
                end: s.len() as int,
                children: hosts.push(leaf(Rule::EndOfInput, s.len() as int, s.len() as int)),
            },
        ),
        Err(fault) => Err(fault),
    }
}

/// Whether a fault may stand at `offset`: inside the text, or at its end
/// behind a byte that is no line feed.
pub open spec fn is_fault_position(s: Seq<u8>, offset: int) -> bool {
    0 <= offset <= s.len() && (offset < s.len() || (offset > 0 && s[offset - 1] != LINE_FEED))
}

/// A fault in the attributes at `at` stands at `at` or behind a `=` or a `,`.
pub proof fn lemma_attributes_fault(s: Seq<u8>, at: int)
    requires
        0 <= at <= s.len(),
    ensures
        attributes(s, at) matches Err(fault) ==> fault.offset == at || (0 < fault.offset <= s.len() && (
        s[fault.offset - 1] == EQUALS || s[fault.offset - 1] == COMMA)),
    decreases s.len() - at,
{
    lemma_attribute_span(s, at);
    lemma_run_end(s, at, ByteClass::Ident);
    if let Ok(first) = attribute(s, at) {
        if first.end < s.len() && s[first.end] == COMMA {
            lemma_attributes_fault(s, first.end + 1);
        }
    }
}

/// A fault in the host entries from `at` on stands where a fault may stand.
pub proof fn lemma_host_entries_fault(s: Seq<u8>, at: int)
    requires
        0 <= at <= s.len(),
    ensures
        host_entries(s, at) matches Err(fault) ==> is_fault_position(s, fault.offset),
    decreases s.len() - at,
{
    lemma_gap_end(s, at, false);
    let start = gap_end(s, at, false);
    if start < s.len() {
        lemma_host_entry_span(s, start);
        lemma_run_end(s, start, ByteClass::Ident);
        let name_end = run_end(s, start, ByteClass::Ident);
        lemma_run_end(s, name_end, ByteClass::Blank);
        let list_at = run_end(s, name_end, ByteClass::Blank);
        lemma_attributes_fault(s, list_at);
        lemma_attribute_list_span(s, list_at);
        if let Ok(list) = attribute_list(s, list_at) {
            lemma_run_end(s, list.end, ByteClass::Blank);
        }
        if let Ok(first) = host_entry(s, start) {
            lemma_host_entries_fault(s, first.end);
        }
    }
}

/// A fault of a genders file stands where a fault may stand.
pub proof fn lemma_fault_position(s: Seq<u8>)
    ensures
        genders_file(s) matches Err(fault) ==> is_fault_position(s, fault.offset),
{
    lemma_host_entries_fault(s, 0);
}

} // verus!
