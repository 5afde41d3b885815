//! The parse of a text into the model, and what the grammar's trees stand
//! for.

use vstd::prelude::*;
use vstd::string::StringSliceAdditionalSpecFns;
use vstd::utf8::{
    decode_utf8, decode_utf8_encode_utf8, encode_utf8, encode_utf8_valid_utf8,
    is_char_boundary_iff_not_is_continuation_byte, is_char_boundary_start_end_of_seq, valid_utf8,
    valid_utf8_split,
};
use crate::bytes::{
    gap_end, is_ident_byte, lemma_gap_end, lemma_run_end, line_of, run_end, ByteClass, COMMA,
    EQUALS,
};
use crate::engine::parse_tree;
use crate::error::{Failure, GendersError};
use crate::grammar::{
    attribute, attribute_value, attributes, genders_file, host_entries, host_entry, ident,
    lemma_attribute_span, lemma_host_entry_span, Tree,
};
use crate::model::{
    fold_attributes, fold_hosts, lemma_fold_hosts, lemma_host_table_key, lemma_host_table_value,
    lemma_table_key, Genders, HostMap,
};
use crate::number::{all_digits, decimal_value, false_word, true_word};
use crate::syntax::{
    attribute_of, file_of, host_entry_of, name_of, value_of, AttributeValueView, AttributeView,
    GendersFile, HostEntryView,
};
use crate::text::{lemma_boundary_after_ascii, lemma_boundary_at_ascii, sliceable, text_of};

verus! {

/// What the parse of a text gives: the fault of the grammar; else the
/// failure of the fold of the host entries that the tree stands for; else
/// the map that the fold gives.
pub open spec fn parse_outcome(s: Seq<u8>) -> Result<HostMap, Failure> {
    match genders_file(s) {
        Err(fault) => Err(Failure::Syntax(fault)),
        Ok(tree) => match file_of(s, tree) {
            None => Err(Failure::InternalShapeMismatch),
            Some(hosts) => fold_hosts(hosts),
        },
    }
}

/// The value that a value word denotes: a boolean where it spells `true`
/// or `false`, the number where it is made of digits only, and the word
/// itself as a string otherwise.
pub open spec fn word_value(word: Seq<u8>) -> AttributeValueView {
    if word == true_word() {
        AttributeValueView::Boolean(true)
    } else if word == false_word() {
        AttributeValueView::Boolean(false)
    } else if all_digits(word) {
        AttributeValueView::Number(decimal_value(word) as u64)
    } else {
        AttributeValueView::String(decode_utf8(word))
    }
}

/// Whether a name is an identifier: its bytes are one or more identifier
/// bytes.
pub open spec fn is_identifier(name: Seq<char>) -> bool {
    encode_utf8(name).len() > 0 && forall|i: int|
        0 <= i < encode_utf8(name).len() ==> is_ident_byte(#[trigger] encode_utf8(name)[i])
}

/// Whether the name of a host entry and the names of its attributes are
/// identifiers.
pub open spec fn entry_well_named(entry: HostEntryView) -> bool {
    is_identifier(entry.name) && forall|j: int|
        0 <= j < entry.attributes.len() ==> is_identifier((#[trigger] entry.attributes[j]).name)
}

/// Whether every host name and every attribute name is an identifier.
pub open spec fn well_named(hosts: Seq<HostEntryView>) -> bool {
    forall|i: int| 0 <= i < hosts.len() ==> entry_well_named(#[trigger] hosts[i])
}

/// Whether a tree stands for a host entry whose names are identifiers.
pub open spec fn stands_for_entry(s: Seq<u8>, t: Tree) -> bool {
    host_entry_of(s, t) is Some && entry_well_named(host_entry_of(s, t)->Some_0)
}

/// A part of a valid text that splits no character is a valid text.
pub proof fn lemma_part_valid(s: Seq<u8>, start: int, end: int)
    requires
        valid_utf8(s),
        sliceable(s, start, end),
    ensures
        valid_utf8(s.subrange(start, end)),
        encode_utf8(text_of(s, start, end)) == s.subrange(start, end),
{
    valid_utf8_split(s, start);
    let tail = s.subrange(start, s.len() as int);
    if end == s.len() {
        is_char_boundary_start_end_of_seq(tail);
    } else {
        is_char_boundary_iff_not_is_continuation_byte(s, end);
        if start < end {
            is_char_boundary_iff_not_is_continuation_byte(tail, end - start);
        }
    }
    valid_utf8_split(tail, end - start);
    assert(tail.subrange(0, end - start) =~= s.subrange(start, end));
    decode_utf8_encode_utf8(s.subrange(start, end));
}

/// An identifier of the grammar stands for the characters that it matched,
/// and they are an identifier.
pub proof fn lemma_ident_named(s: Seq<u8>, at: int)
    requires
        valid_utf8(s),
        ident(s, at) is Some,
    ensures
        name_of(s, ident(s, at)->Some_0) == Some(text_of(s, at, run_end(s, at, ByteClass::Ident))),
        is_identifier(text_of(s, at, run_end(s, at, ByteClass::Ident))),
{
    let end = run_end(s, at, ByteClass::Ident);
    lemma_run_end(s, at, ByteClass::Ident);
    lemma_boundary_at_ascii(s, at);
    lemma_boundary_after_ascii(s, end - 1);
    lemma_part_valid(s, at, end);
}

/// Value-type disambiguation: an attribute value of the grammar, behind
/// its `=`, stands for the value that its word denotes.
/// A word that spells `true` or `false` is that boolean; a word of digits
/// only is the number that it denotes, which fits in 64 bits; any other
/// word is the string of its characters, which keeps the bytes of the word.
pub proof fn lemma_value_typed(s: Seq<u8>, at: int)
    requires
        valid_utf8(s),
        0 < at <= s.len(),
        s[at - 1] == EQUALS,
        attribute_value(s, at) is Ok,
    ensures
        ({
            let word = s.subrange(at, run_end(s, at, ByteClass::Value));
            &&& value_of(s, attribute_value(s, at)->Ok_0) == Some(word_value(word))
            &&& word.len() > 0
            &&& word != true_word() && word != false_word() && all_digits(word) ==> decimal_value(
                word,
            ) <= u64::MAX
            &&& word_value(word) matches AttributeValueView::String(text) ==> encode_utf8(text)
                == word
        }),
{
    let end = run_end(s, at, ByteClass::Value);
    lemma_run_end(s, at, ByteClass::Value);
    lemma_boundary_after_ascii(s, at - 1);
    if end == s.len() {
        is_char_boundary_start_end_of_seq(s);
    } else {
        lemma_boundary_at_ascii(s, end);
    }
    lemma_part_valid(s, at, end);
}

/// Flag attributes: an attribute of the grammar stands for an attribute
/// whose name is the identifier that it starts with. Where `=` follows the
/// name, its value is what the word behind the `=` denotes; where none
/// follows, it has no value.
pub proof fn lemma_attribute_typed(s: Seq<u8>, at: int)
    requires
        valid_utf8(s),
        attribute(s, at) is Ok,
    ensures
        ({
            let name_end = run_end(s, at, ByteClass::Ident);
            &&& attribute_of(s, attribute(s, at)->Ok_0) matches Some(a)
            &&& a.name == text_of(s, at, name_end)
            &&& is_identifier(a.name)
            &&& a.value == if name_end < s.len() && s[name_end] == EQUALS {
                Some(
                    word_value(
                        s.subrange(name_end + 1, run_end(s, name_end + 1, ByteClass::Value)),
                    ),
                )
            } else {
                None::<AttributeValueView>
            }
        }),
{
    let name_end = run_end(s, at, ByteClass::Ident);
    lemma_ident_named(s, at);
    lemma_run_end(s, at, ByteClass::Ident);
    if name_end < s.len() && s[name_end] == EQUALS {
        lemma_value_typed(s, name_end + 1);
    }
}

/// Each of the attributes that the grammar matches from `at` on stands for
/// an attribute with an identifier as its name.
pub proof fn lemma_attributes_typed(s: Seq<u8>, at: int)
    requires
        valid_utf8(s),
    ensures
        attributes(s, at) matches Ok(items) ==> forall|i: int|
            0 <= i < items.len() ==> (#[trigger] attribute_of(s, items[i])) is Some
                && is_identifier(attribute_of(s, items[i])->Some_0.name),
    decreases s.len() - at,
{
    lemma_attribute_span(s, at);
    if let Ok(first) = attribute(s, at) {
        lemma_attribute_typed(s, at);
        if first.end < s.len() && s[first.end] == COMMA {
            lemma_attributes_typed(s, first.end + 1);
        }
    }
}

/// A host entry of the grammar stands for a host entry whose names are
/// identifiers.
pub proof fn lemma_host_entry_typed(s: Seq<u8>, at: int)
    requires
        valid_utf8(s),
        host_entry(s, at) is Ok,
    ensures
        stands_for_entry(s, host_entry(s, at)->Ok_0),
{
    let name_end = run_end(s, at, ByteClass::Ident);
    lemma_ident_named(s, at);
    lemma_run_end(s, at, ByteClass::Ident);
    lemma_run_end(s, name_end, ByteClass::Blank);
    let list_at = run_end(s, name_end, ByteClass::Blank);
    lemma_attributes_typed(s, list_at);
}

/// Each of the host entries that the grammar matches from `at` on stands
/// for a host entry whose names are identifiers.
pub proof fn lemma_host_entries_typed(s: Seq<u8>, at: int)
    requires
        valid_utf8(s),
        0 <= at <= s.len(),
    ensures
        host_entries(s, at) matches Ok(hosts) ==> forall|i: int|
            0 <= i < hosts.len() ==> stands_for_entry(s, #[trigger] hosts[i]),
    decreases s.len() - at,
{
    lemma_gap_end(s, at, false);
    let start = gap_end(s, at, false);
    if start < s.len() {
        lemma_host_entry_span(s, start);
        if let Ok(first) = host_entry(s, start) {
            lemma_host_entry_typed(s, start);
            lemma_host_entries_typed(s, first.end);
        }
    }
}

/// The grammar and the transformer agree: every tree that the grammar
/// gives a valid text stands for host entries, and all their names are
/// identifiers.
pub proof fn lemma_file_typed(s: Seq<u8>)
    requires
        valid_utf8(s),
    ensures
        genders_file(s) matches Ok(tree) ==> file_of(s, tree) matches Some(hosts) && well_named(
            hosts,
        ),
{
    lemma_host_entries_typed(s, 0);
}

/// Whether every host name and every attribute name of a model is an
/// identifier.
pub open spec fn model_well_named(map: HostMap) -> bool {
    forall|host: Seq<char>| #[trigger]
        map.contains_key(host) ==> is_identifier(host) && forall|attribute: Seq<char>| #[trigger]
            map[host].contains_key(attribute) ==> is_identifier(attribute)
}

/// The fold of host entries whose names are identifiers gives a model
/// whose names are identifiers.
pub proof fn lemma_fold_well_named(hosts: Seq<HostEntryView>)
    requires
        well_named(hosts),
    ensures
        fold_hosts(hosts) matches Ok(map) ==> model_well_named(map),
{
    lemma_fold_hosts(hosts);
    if let Ok(map) = fold_hosts(hosts) {
        assert forall|host: Seq<char>| #[trigger] map.contains_key(host) implies is_identifier(host)
            && forall|attribute: Seq<char>| #[trigger]
            map[host].contains_key(attribute) ==> is_identifier(attribute) by {
            let i = lemma_host_table_key(hosts, host);
            lemma_host_table_value(hosts, i);
            assert forall|attribute: Seq<char>| #[trigger]
                map[host].contains_key(attribute) implies is_identifier(attribute) by {
                lemma_table_key(hosts[i].attributes, attribute);
            }
        }
    }
}

/// A fold of attributes fails with a duplicate attribute only.
pub proof fn lemma_fold_attributes_failure(host: Seq<char>, attributes: Seq<AttributeView>)
    ensures
        fold_attributes(host, attributes) matches Err(failure) ==> failure is DuplicateAttribute,
    decreases attributes.len(),
{
    if attributes.len() > 0 {
        lemma_fold_attributes_failure(host, attributes.drop_last());
    }
}

/// A fold of host entries fails with a duplicate host or a duplicate
/// attribute only.
pub proof fn lemma_fold_hosts_failure(hosts: Seq<HostEntryView>)
    ensures
        fold_hosts(hosts) matches Err(failure) ==> failure is DuplicateHost || failure
            is DuplicateAttribute,
    decreases hosts.len(),
{
    if hosts.len() > 0 {
        lemma_fold_hosts_failure(hosts.drop_last());
        lemma_fold_attributes_failure(hosts.last().name, hosts.last().attributes);
    }
}

impl<'src> Genders<'src> {
    /// Parses the text of a genders file.
    ///
    /// Returns the model where the text conforms to the grammar, no host
    /// is declared twice and no host lists an attribute twice: the model
    /// then holds each host of the text with exactly the attributes that
    /// the text lists for it, and all its names are identifiers. Otherwise returns the syntax error of the
    /// grammar, with its line, or the duplicate that the fold of the host
    /// entries met first. An internal shape mismatch is never returned.
    pub fn parse(text: &'src str) -> (r: Result<Genders<'src>, GendersError<'src>>)
        ensures
            match r {
                Ok(genders) => parse_outcome(text.spec_bytes()) == Ok::<HostMap, Failure>(genders@)
                    && model_well_named(genders@) && Some(genders.in_order()) == file_of(
                    text.spec_bytes(),
                    genders_file(text.spec_bytes())->Ok_0,
                ),
                Err(e) => parse_outcome(text.spec_bytes()) == Err::<HostMap, Failure>(e@) && !(e
                    is InternalShapeMismatch) && (e matches GendersError::Syntax(syntax)
                    ==> syntax.line == line_of(text.spec_bytes(), syntax.offset as int)),
            },
    {
        proof {
            encode_utf8_valid_utf8(text@);
            lemma_file_typed(text.spec_bytes());
        }
        let tree = match parse_tree(text) {
            Err(e) => {
                return Err(GendersError::Syntax(e));
            },
            Ok(tree) => tree,
        };
        let file = match GendersFile::from_node(text, &tree) {
            Err(e) => {
                return Err(e);
            },
            Ok(file) => file,
        };
        proof {
            lemma_fold_hosts_failure(file@);
            lemma_fold_well_named(file@);
        }
        Genders::from_file(&file)
    }
}

impl<'src> TryFrom<&'src str> for Genders<'src> {
    type Error = GendersError<'src>;

    /// Parses the text of a genders file, as [`Genders::parse`] does.
    fn try_from(text: &'src str) -> (r: Result<Genders<'src>, GendersError<'src>>)
        ensures
            match r {
                Ok(genders) => parse_outcome(text.spec_bytes()) == Ok::<HostMap, Failure>(genders@)
                    && model_well_named(genders@) && Some(genders.in_order()) == file_of(
                    text.spec_bytes(),
                    genders_file(text.spec_bytes())->Ok_0,
                ),
                Err(e) => parse_outcome(text.spec_bytes()) == Err::<HostMap, Failure>(e@) && !(e
                    is InternalShapeMismatch) && (e matches GendersError::Syntax(syntax)
                    ==> syntax.line == line_of(text.spec_bytes(), syntax.offset as int)),
            },
    {
        Genders::parse(text)
    }
}

impl<'src> vstd::std_specs::convert::TryFromSpecImpl<&'src str> for Genders<'src> {
    /// What the conversion returns is stated by the `ensures` of
    /// `try_from` alone.
    open spec fn obeys_try_from_spec() -> bool {
        false
    }

    open spec fn try_from_spec(text: &'src str) -> Result<Self, Self::Error> {
        arbitrary()
    }
}

} // verus!
