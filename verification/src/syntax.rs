//! The typed values of a genders file, and their reconstruction from a
//! syntax tree.

use vstd::prelude::*;
use vstd::string::StringSliceAdditionalSpecFns;
use crate::error::GendersError;
use crate::grammar::{matched, Tree};
use crate::number::{
    all_digits, decimal_value, false_word, is_digit_word, is_false_word, is_true_word,
    read_decimal, true_word,
};
use crate::rule::Rule;
use crate::text::{slice, sliceable, text_of};
use crate::tree::{lemma_children, Node};

verus! {

/// The value of an attribute.
#[derive(Clone, Copy, Debug, PartialEq, Eq)]
pub enum AttributeValue<'src> {
    /// A truth value, written `true` or `false`.
    Boolean(bool),
    /// A number, written in decimal digits.
    Number(u64),
    /// Any other value, as it stands in the text.
    String(&'src str),
}

/// What an [`AttributeValue`] holds, with a string as a sequence of
/// characters.
pub enum AttributeValueView {
    Boolean(bool),
    Number(u64),
    String(Seq<char>),
}

impl View for AttributeValue<'_> {
    type V = AttributeValueView;

    open spec fn view(&self) -> AttributeValueView {
        match *self {
            AttributeValue::Boolean(b) => AttributeValueView::Boolean(b),
            AttributeValue::Number(n) => AttributeValueView::Number(n),
            AttributeValue::String(text) => AttributeValueView::String(text@),
        }
    }
}

/// A named attribute of a host. An attribute without a value is a flag:
/// that it is there is all it says.
#[derive(Clone, Copy, Debug, PartialEq, Eq)]
pub struct Attribute<'src> {
    pub name: &'src str,
    pub value: Option<AttributeValue<'src>>,
}

/// What an [`Attribute`] holds.
pub struct AttributeView {
    pub name: Seq<char>,
    pub value: Option<AttributeValueView>,
}

/// What an optional value holds.
pub open spec fn value_view(value: Option<AttributeValue>) -> Option<AttributeValueView> {
    match value {
        Some(value) => Some(value@),
        None => None,
    }
}

impl View for Attribute<'_> {
    type V = AttributeView;

    open spec fn view(&self) -> AttributeView {
        AttributeView { name: self.name@, value: value_view(self.value) }
    }
}

/// A host and its attributes, in the order of the text.
#[derive(Clone, Debug, PartialEq, Eq)]
pub struct HostEntry<'src> {
    pub name: &'src str,
    pub attributes: Vec<Attribute<'src>>,
}

/// What a [`HostEntry`] holds.
pub struct HostEntryView {
    pub name: Seq<char>,
    pub attributes: Seq<AttributeView>,
}

/// What a sequence of attributes holds.
pub open spec fn attribute_views(attributes: Seq<Attribute>) -> Seq<AttributeView> {
    attributes.map_values(|a: Attribute| a@)
}

impl View for HostEntry<'_> {
    type V = HostEntryView;

    open spec fn view(&self) -> HostEntryView {
        HostEntryView { name: self.name@, attributes: attribute_views(self.attributes@) }
    }
}

/// The host entries of a file, in the order of the text.
#[derive(Clone, Debug, PartialEq, Eq)]
pub struct GendersFile<'src> {
    pub hosts: Vec<HostEntry<'src>>,
}

/// What a sequence of host entries holds.
pub open spec fn host_views(hosts: Seq<HostEntry>) -> Seq<HostEntryView> {
    hosts.map_values(|h: HostEntry| h@)
}

impl View for GendersFile<'_> {
    type V = Seq<HostEntryView>;

    open spec fn view(&self) -> Seq<HostEntryView> {
        host_views(self.hosts@)
    }
}

/// The characters that a node without children matched, where its bytes
/// can be cut out of the text.
pub open spec fn leaf_text(s: Seq<u8>, t: Tree) -> Option<Seq<char>> {
    if t.children.len() == 0 && sliceable(s, t.start, t.end) {
        Some(text_of(s, t.start, t.end))
    } else {
        None
    }
}

/// The value that a node of one of the three typed forms stands for.
/// A boolean node must spell `true` or `false`; a numeric node must hold
/// one or more digits that denote a 64-bit number; a string node stands
/// for its characters, whatever they are.
pub open spec fn typed_value_of(s: Seq<u8>, t: Tree) -> Option<AttributeValueView> {
    let word = matched(s, t);
    match leaf_text(s, t) {
        None => None,
        Some(text) => match t.rule {
            Rule::AttributeValueBool => if word == true_word() {
                Some(AttributeValueView::Boolean(true))
            } else if word == false_word() {
                Some(AttributeValueView::Boolean(false))
            } else {
                None
            },
            Rule::AttributeValueNumeric => if word.len() > 0 && all_digits(word) && decimal_value(
                word,
            ) <= u64::MAX {
                Some(AttributeValueView::Number(decimal_value(word) as u64))
            } else {
                None
            },
            Rule::AttributeValueString => Some(AttributeValueView::String(text)),
            _ => None,
        },
    }
}

/// The value that a node stands for: that of its only child where the node
/// is an attribute value, and its own where it is of a typed form.
pub open spec fn value_of(s: Seq<u8>, t: Tree) -> Option<AttributeValueView> {
    if t.rule == Rule::AttributeValue {
        if t.children.len() == 1 {
            typed_value_of(s, t.children[0])
        } else {
            None
        }
    } else {
        typed_value_of(s, t)
    }
}

/// The name that an identifier node stands for.
pub open spec fn name_of(s: Seq<u8>, t: Tree) -> Option<Seq<char>> {
    if t.rule == Rule::Ident {
        leaf_text(s, t)
    } else {
        None
    }
}

/// The attribute that an attribute node stands for: the name of its first
/// child, and the value of its second where it has one.
pub open spec fn attribute_of(s: Seq<u8>, t: Tree) -> Option<AttributeView> {
    if t.rule == Rule::Attribute && 1 <= t.children.len() <= 2 && name_of(s, t.children[0]) is Some
        && (t.children.len() == 2 ==> value_of(s, t.children[1]) is Some) {
        Some(
            AttributeView {
                name: name_of(s, t.children[0]).unwrap(),
                value: if t.children.len() == 2 {
                    value_of(s, t.children[1])
                } else {
                    None
                },
            },
        )
    } else {
        None
    }
}

/// The attributes that an attribute list node stands for, in its order.
pub open spec fn attributes_of(s: Seq<u8>, t: Tree) -> Option<Seq<AttributeView>> {
    if t.rule == Rule::AttributeList && forall|i: int|
        0 <= i < t.children.len() ==> (#[trigger] attribute_of(s, t.children[i])) is Some {
        Some(Seq::new(t.children.len(), |i: int| attribute_of(s, t.children[i]).unwrap()))
    } else {
        None
    }
}

/// The host entry that a host entry node stands for: the name of its first
/// child and the attributes of its second.
pub open spec fn host_entry_of(s: Seq<u8>, t: Tree) -> Option<HostEntryView> {
    if t.rule == Rule::HostEntry && t.children.len() == 2 && name_of(s, t.children[0]) is Some
        && attributes_of(s, t.children[1]) is Some {
        Some(
            HostEntryView {
                name: name_of(s, t.children[0]).unwrap(),
                attributes: attributes_of(s, t.children[1]).unwrap(),
            },
        )
    } else {
        None
    }
}

/// Whether a node marks the end of the input.
pub open spec fn is_end_of_input(t: Tree) -> bool {
    t.rule == Rule::EndOfInput && t.children.len() == 0
}

/// The host entries that a file node stands for: those of its children but
/// the last, which marks the end of the input.
pub open spec fn file_of(s: Seq<u8>, t: Tree) -> Option<Seq<HostEntryView>> {
    if t.rule == Rule::GendersFile && t.children.len() >= 1 && is_end_of_input(t.children.last())
        && forall|i: int|
        0 <= i < t.children.len() - 1 ==> (#[trigger] host_entry_of(s, t.children[i])) is Some {
        Some(Seq::new((t.children.len() - 1) as nat, |i: int| host_entry_of(s, t.children[i]).unwrap()))
    } else {
        None
    }
}

/// Cuts out the name that an identifier node stands for.
fn read_name<'src>(text: &'src str, node: &Node) -> (r: Option<&'src str>)
    ensures
        match r {
            Some(name) => name_of(text.spec_bytes(), node@) == Some(name@),
            None => name_of(text.spec_bytes(), node@) is None,
        },
{
    proof {
        lemma_children(node);
    }
    if node.rule == Rule::Ident && node.children.len() == 0 {
        slice(text, node.start, node.end)
    } else {
        None
    }
}

/// Reads the value that a node of one of the three typed forms stands for.
fn read_typed_value<'src>(text: &'src str, node: &Node) -> (r: Result<
    AttributeValue<'src>,
    GendersError<'src>,
>)
    ensures
        match r {
            Ok(value) => typed_value_of(text.spec_bytes(), node@) == Some(value@),
            Err(e) => typed_value_of(text.spec_bytes(), node@) is None && e
                is InternalShapeMismatch,
        },
{
    proof {
        lemma_children(node);
    }
    if node.children.len() != 0 {
        return Err(GendersError::InternalShapeMismatch);
    }
    let part = match slice(text, node.start, node.end) {
        None => {
            return Err(GendersError::InternalShapeMismatch);
        },
        Some(part) => part,
    };
    let bytes = text.as_bytes();
    match node.rule {
        Rule::AttributeValueBool => {
            if is_true_word(bytes, node.start, node.end) {
                Ok(AttributeValue::Boolean(true))
            } else if is_false_word(bytes, node.start, node.end) {
                Ok(AttributeValue::Boolean(false))
            } else {
                Err(GendersError::InternalShapeMismatch)
            }
        },
        Rule::AttributeValueNumeric => {
            if node.start < node.end && is_digit_word(bytes, node.start, node.end) {
                match read_decimal(bytes, node.start, node.end) {
                    Some(number) => Ok(AttributeValue::Number(number)),
                    None => Err(GendersError::InternalShapeMismatch),
                }
            } else {
                Err(GendersError::InternalShapeMismatch)
            }
        },
        Rule::AttributeValueString => Ok(AttributeValue::String(part)),
        _ => Err(GendersError::InternalShapeMismatch),
    }
}

impl<'src> AttributeValue<'src> {
    /// Reads the value that a node stands for.
    ///
    /// The node is an attribute value with one child of a typed form, or a
    /// node of a typed form itself. Any other shape is an
    /// [`GendersError::InternalShapeMismatch`].
    pub fn from_node(text: &'src str, node: &Node) -> (r: Result<
        AttributeValue<'src>,
        GendersError<'src>,
    >)
        ensures
            match r {
                Ok(value) => value_of(text.spec_bytes(), node@) == Some(value@),
                Err(e) => value_of(text.spec_bytes(), node@) is None && e is InternalShapeMismatch,
            },
    {
        proof {
            lemma_children(node);
        }
        match node.rule {
            Rule::AttributeValue => {
                if node.children.len() == 1 {
                    read_typed_value(text, &node.children[0])
                } else {
                    Err(GendersError::InternalShapeMismatch)
                }
            },
            _ => read_typed_value(text, node),
        }
    }
}

impl<'src> Attribute<'src> {
    /// Reads the attribute that an attribute node stands for: its name, and
    /// its value where the node has a second child. Any other shape is an
    /// [`GendersError::InternalShapeMismatch`].
    pub fn from_node(text: &'src str, node: &Node) -> (r: Result<
        Attribute<'src>,
        GendersError<'src>,
    >)
        ensures
            match r {
                Ok(attribute) => attribute_of(text.spec_bytes(), node@) == Some(attribute@),
                Err(e) => attribute_of(text.spec_bytes(), node@) is None && e
                    is InternalShapeMismatch,
            },
    {
        proof {
            lemma_children(node);
        }
        let n = node.children.len();
        if node.rule != Rule::Attribute || n < 1 || n > 2 {
            return Err(GendersError::InternalShapeMismatch);
        }
        let name = match read_name(text, &node.children[0]) {
            None => {
                return Err(GendersError::InternalShapeMismatch);
            },
            Some(name) => name,
        };
        if n == 2 {
            match AttributeValue::from_node(text, &node.children[1]) {
                Err(e) => Err(e),
                Ok(value) => Ok(Attribute { name, value: Some(value) }),
            }
        } else {
            Ok(Attribute { name, value: None })
        }
    }
}

/// Reads the attributes that an attribute list node stands for.
fn read_attribute_list<'src>(text: &'src str, node: &Node) -> (r: Result<
    Vec<Attribute<'src>>,
    GendersError<'src>,
>)
    ensures
        match r {
            Ok(attributes) => attributes_of(text.spec_bytes(), node@) == Some(
                attribute_views(attributes@),
            ),
            Err(e) => attributes_of(text.spec_bytes(), node@) is None && e
                is InternalShapeMismatch,
        },
{
    proof {
        lemma_children(node);
    }
    if node.rule != Rule::AttributeList {
        return Err(GendersError::InternalShapeMismatch);
    }
    let ghost s = text.spec_bytes();
    let mut attributes: Vec<Attribute<'src>> = Vec::new();
    let mut i: usize = 0;
    while i < node.children.len()
        invariant
            i <= node.children@.len(),
            attributes@.len() == i,
            s == text.spec_bytes(),
            node@.children == crate::tree::views(node.children@),
            forall|k: int|
                0 <= k < i ==> (#[trigger] attribute_of(s, node@.children[k])) == Some(
                    attributes@[k]@,
                ),
        decreases node.children@.len() - i,
    {
        match Attribute::from_node(text, &node.children[i]) {
            Err(e) => {
                assert(attribute_of(s, node@.children[i as int]) is None);
                return Err(e);
            },
            Ok(attribute) => {
                attributes.push(attribute);
            },
        }
        i += 1;
    }
    Ok(attributes)
}

impl<'src> HostEntry<'src> {
    /// Reads the host entry that a host entry node stands for: the name of
    /// its first child and the attributes of its second. Any other shape is
    /// an [`GendersError::InternalShapeMismatch`].
    pub fn from_node(text: &'src str, node: &Node) -> (r: Result<
        HostEntry<'src>,
        GendersError<'src>,
    >)
        ensures
            match r {
                Ok(entry) => host_entry_of(text.spec_bytes(), node@) == Some(entry@),
                Err(e) => host_entry_of(text.spec_bytes(), node@) is None && e
                    is InternalShapeMismatch,
            },
    {
        proof {
            lemma_children(node);
        }
        if node.rule != Rule::HostEntry || node.children.len() != 2 {
            return Err(GendersError::InternalShapeMismatch);
        }
        let name = match read_name(text, &node.children[0]) {
            None => {
                return Err(GendersError::InternalShapeMismatch);
            },
            Some(name) => name,
        };
        match read_attribute_list(text, &node.children[1]) {
            Err(e) => Err(e),
            Ok(attributes) => Ok(HostEntry { name, attributes }),
        }
    }
}

impl<'src> GendersFile<'src> {
    /// Reads the host entries that a file node stands for: those of its
    /// children but the last, which must mark the end of the input. Any
    /// other shape is an [`GendersError::InternalShapeMismatch`].
    pub fn from_node(text: &'src str, node: &Node) -> (r: Result<
        GendersFile<'src>,
        GendersError<'src>,
    >)
        ensures
            match r {
                Ok(file) => file_of(text.spec_bytes(), node@) == Some(file@),
                Err(e) => file_of(text.spec_bytes(), node@) is None && e is InternalShapeMismatch,
            },
    {
        proof {
            lemma_children(node);
        }
        let n = node.children.len();
        if node.rule != Rule::GendersFile || n < 1 {
            return Err(GendersError::InternalShapeMismatch);
        }
        let last = &node.children[n - 1];
        proof {
            lemma_children(last);
        }
        if last.rule != Rule::EndOfInput || last.children.len() != 0 {
            return Err(GendersError::InternalShapeMismatch);
        }
        let ghost s = text.spec_bytes();
        let mut hosts: Vec<HostEntry<'src>> = Vec::new();
        let mut i: usize = 0;
        while i < n - 1
            invariant
                i <= n - 1,
                n == node.children@.len(),
                hosts@.len() == i,
                s == text.spec_bytes(),
                node@.children == crate::tree::views(node.children@),
                forall|k: int|
                    0 <= k < i ==> (#[trigger] host_entry_of(s, node@.children[k])) == Some(
                        hosts@[k]@,
                    ),
            decreases n - 1 - i,
        {
            match HostEntry::from_node(text, &node.children[i]) {
                Err(e) => {
                    assert(host_entry_of(s, node@.children[i as int]) is None);
                    return Err(e);
                },
                Ok(entry) => {
                    hosts.push(entry);
                },
            }
            i += 1;
        }
        Ok(GendersFile { hosts })
    }
}

} // verus!
