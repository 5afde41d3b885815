//! What holds of every parse.

use vstd::prelude::*;
use vstd::utf8::valid_utf8;
use crate::bytes::{gap_end, is_ident_byte, COMMA};
use crate::error::Failure;
use crate::grammar::{attribute, attributes, genders_file, host_entries, leaf, Fault, Tree};
use crate::model::{
    attribute_table, distinct_attributes, distinct_attributes_everywhere, distinct_hosts,
    fold_attributes, fold_hosts, lemma_fold_attributes, lemma_fold_attributes_failed,
    lemma_fold_hosts, lemma_fold_hosts_failed, lemma_host_table_holds, lemma_host_table_key,
    lemma_host_table_value, lemma_table_holds, lemma_table_key, lemma_table_value, AttributeMap,
    HostMap,
};
use crate::parse::{lemma_file_typed, lemma_fold_hosts_failure, parse_outcome};
use crate::rule::Rule;
use crate::syntax::{file_of, AttributeView, HostEntryView};

verus! {

/// Whether a map holds exactly the given attributes: the names of the
/// attributes and no others, and under each name the value of the
/// attribute of that name.
pub open spec fn holds_attributes(map: AttributeMap, attributes: Seq<AttributeView>) -> bool {
    &&& forall|name: Seq<char>| #[trigger]
        map.contains_key(name) <==> exists|j: int|
            0 <= j < attributes.len() && (#[trigger] attributes[j]).name == name
    &&& forall|j: int|
        0 <= j < attributes.len() ==> map[(#[trigger] attributes[j]).name] == attributes[j].value
}

/// Whether a model holds exactly the given host entries: the names of the
/// entries and no others, and under each name exactly the attributes of
/// the entry of that name.
pub open spec fn holds_hosts(map: HostMap, hosts: Seq<HostEntryView>) -> bool {
    &&& forall|name: Seq<char>| #[trigger]
        map.contains_key(name) <==> exists|i: int|
            0 <= i < hosts.len() && (#[trigger] hosts[i]).name == name
    &&& forall|i: int|
        0 <= i < hosts.len() ==> holds_attributes(
            map[(#[trigger] hosts[i]).name],
            hosts[i].attributes,
        )
}

/// The table of attributes with distinct names holds exactly those
/// attributes.
pub proof fn lemma_table_holds_attributes(attributes: Seq<AttributeView>)
    requires
        distinct_attributes(attributes),
    ensures
        holds_attributes(attribute_table(attributes), attributes),
{
    let map = attribute_table(attributes);
    assert forall|name: Seq<char>| #[trigger] map.contains_key(name) <==> exists|j: int|
            0 <= j < attributes.len() && (#[trigger] attributes[j]).name == name by {
        if map.contains_key(name) {
            lemma_table_key(attributes, name);
        }
        if exists|j: int| 0 <= j < attributes.len() && (#[trigger] attributes[j]).name == name {
            let j = choose|j: int| 0 <= j < attributes.len() && (#[trigger] attributes[j]).name == name;
            lemma_table_holds(attributes, j);
        }
    }
    assert forall|j: int| 0 <= j < attributes.len() implies map[(#[trigger] attributes[j]).name]
        == attributes[j].value by {
        lemma_table_value(attributes, j);
    }
}

/// Round trip of the fold: host entries with distinct names, each with
/// attributes of distinct names, fold into a model that holds exactly the
/// names of those hosts, each with exactly its declared attributes.
pub proof fn lemma_round_trip(hosts: Seq<HostEntryView>)
    requires
        distinct_hosts(hosts),
        distinct_attributes_everywhere(hosts),
    ensures
        fold_hosts(hosts) matches Ok(map) && holds_hosts(map, hosts),
{
    lemma_fold_hosts(hosts);
    let map = fold_hosts(hosts)->Ok_0;
    assert forall|name: Seq<char>| #[trigger] map.contains_key(name) <==> exists|i: int|
            0 <= i < hosts.len() && (#[trigger] hosts[i]).name == name by {
        if map.contains_key(name) {
            lemma_host_table_key(hosts, name);
        }
        if exists|i: int| 0 <= i < hosts.len() && (#[trigger] hosts[i]).name == name {
            let i = choose|i: int| 0 <= i < hosts.len() && (#[trigger] hosts[i]).name == name;
            lemma_host_table_holds(hosts, i);
        }
    }
    assert forall|i: int| 0 <= i < hosts.len() implies holds_attributes(
        map[(#[trigger] hosts[i]).name],
        hosts[i].attributes,
    ) by {
        lemma_host_table_value(hosts, i);
        lemma_table_holds_attributes(hosts[i].attributes);
    }
}

/// Round trip of the parse: a valid text that conforms to the grammar,
/// with distinct host names and under each host distinct attribute names,
/// parses into a model that holds exactly the hosts of the text, each with
/// exactly its declared attributes.
pub proof fn lemma_round_trip_of_text(s: Seq<u8>)
    requires
        valid_utf8(s),
        genders_file(s) is Ok,
        file_of(s, genders_file(s)->Ok_0) matches Some(hosts) ==> distinct_hosts(hosts)
            && distinct_attributes_everywhere(hosts),
    ensures
        file_of(s, genders_file(s)->Ok_0) matches Some(hosts) && parse_outcome(s) matches Ok(map)
            && holds_hosts(map, hosts),
{
    lemma_file_typed(s);
    lemma_round_trip(file_of(s, genders_file(s)->Ok_0)->Some_0);
}

/// The first attribute whose name occurred before it, given two
/// attributes of one name.
pub proof fn lemma_first_repeated_attribute(attributes: Seq<AttributeView>, i: int, j: int) -> (k:
    int)
    requires
        0 <= i < j < attributes.len(),
        attributes[i].name == attributes[j].name,
    ensures
        0 < k <= j,
        distinct_attributes(attributes.take(k)),
        exists|a: int| 0 <= a < k && (#[trigger] attributes[a]).name == attributes[k].name,
    decreases j,
{
    let front = attributes.take(j);
    if distinct_attributes(front) {
        j
    } else {
        let (a, b) = choose|a: int, b: int|
            #![trigger front[a], front[b]]
            0 <= a < b < front.len() && front[a].name == front[b].name;
        lemma_first_repeated_attribute(attributes, a, b)
    }
}

/// The first host entry whose name occurred before it, given two entries
/// of one name.
pub proof fn lemma_first_repeated_host(hosts: Seq<HostEntryView>, i: int, j: int) -> (k: int)
    requires
        0 <= i < j < hosts.len(),
        hosts[i].name == hosts[j].name,
    ensures
        0 < k <= j,
        distinct_hosts(hosts.take(k)),
        exists|a: int| 0 <= a < k && (#[trigger] hosts[a]).name == hosts[k].name,
    decreases j,
{
    let front = hosts.take(j);
    if distinct_hosts(front) {
        j
    } else {
        let (a, b) = choose|a: int, b: int|
            #![trigger front[a], front[b]]
            0 <= a < b < front.len() && front[a].name == front[b].name;
        lemma_first_repeated_host(hosts, a, b)
    }
}

/// Duplicate attributes of one host: where two attributes have the same
/// name, the fold fails with a duplicate attribute that names the host
/// and the first attribute whose name occurred before it. The index of
/// that attribute is returned.
pub proof fn lemma_repeated_attribute(
    host: Seq<char>,
    attributes: Seq<AttributeView>,
    i: int,
    j: int,
) -> (k: int)
    requires
        0 <= i < j < attributes.len(),
        attributes[i].name == attributes[j].name,
    ensures
        0 < k <= j,
        distinct_attributes(attributes.take(k)),
        exists|a: int| 0 <= a < k && (#[trigger] attributes[a]).name == attributes[k].name,
        fold_attributes(host, attributes) == Err::<AttributeMap, Failure>(
            Failure::DuplicateAttribute { host, attribute: attributes[k].name },
        ),
{
    let k = lemma_first_repeated_attribute(attributes, i, j);
    let front = attributes.take(k);
    let next = attributes.take(k + 1);
    let a = choose|a: int| 0 <= a < k && (#[trigger] attributes[a]).name == attributes[k].name;
    lemma_fold_attributes(host, front);
    assert(next.drop_last() =~= front);
    lemma_table_holds(front, a);
    lemma_fold_attributes_failed(host, attributes, k + 1);
    k
}

/// Duplicate attribute rejection: where the host entries before entry `h`
/// are accepted and entry `h` lists an attribute name twice, the fold
/// fails with a duplicate attribute that names the host of entry `h` and
/// the first of its attributes whose name occurred before it. The index of
/// that attribute is returned.
pub proof fn lemma_duplicate_attribute_rejected(
    hosts: Seq<HostEntryView>,
    h: int,
    i: int,
    j: int,
) -> (k: int)
    requires
        0 <= h < hosts.len(),
        distinct_hosts(hosts.take(h)),
        distinct_attributes_everywhere(hosts.take(h)),
        0 <= i < j < hosts[h].attributes.len(),
        hosts[h].attributes[i].name == hosts[h].attributes[j].name,
    ensures
        0 < k <= j,
        distinct_attributes(hosts[h].attributes.take(k)),
        exists|a: int|
            0 <= a < k && (#[trigger] hosts[h].attributes[a]).name == hosts[h].attributes[k].name,
        fold_hosts(hosts) == Err::<HostMap, Failure>(
            Failure::DuplicateAttribute {
                host: hosts[h].name,
                attribute: hosts[h].attributes[k].name,
            },
        ),
{
    let k = lemma_repeated_attribute(hosts[h].name, hosts[h].attributes, i, j);
    let front = hosts.take(h);
    let next = hosts.take(h + 1);
    lemma_fold_hosts(front);
    assert(next.drop_last() =~= front);
    lemma_fold_hosts_failed(hosts, h + 1);
    k
}

/// Duplicate host rejection: where two host entries have the same name,
/// whatever their attributes are, and no entry lists an attribute name
/// twice, the fold fails with a duplicate host that names the first entry
/// whose name occurred before it. The index of that entry is returned.
pub proof fn lemma_duplicate_host_rejected(hosts: Seq<HostEntryView>, i: int, j: int) -> (k: int)
    requires
        0 <= i < j < hosts.len(),
        hosts[i].name == hosts[j].name,
        distinct_attributes_everywhere(hosts),
    ensures
        0 < k <= j,
        distinct_hosts(hosts.take(k)),
        exists|a: int| 0 <= a < k && (#[trigger] hosts[a]).name == hosts[k].name,
        fold_hosts(hosts) == Err::<HostMap, Failure>(Failure::DuplicateHost { host: hosts[k].name }),
{
    let k = lemma_first_repeated_host(hosts, i, j);
    let front = hosts.take(k);
    let next = hosts.take(k + 1);
    let a = choose|a: int| 0 <= a < k && (#[trigger] hosts[a]).name == hosts[k].name;
    lemma_fold_hosts(front);
    lemma_fold_attributes(hosts[k].name, hosts[k].attributes);
    assert(next.drop_last() =~= front);
    lemma_host_table_holds(front, a);
    lemma_fold_hosts_failed(hosts, k + 1);
    k
}

/// No merging: the fold gives a model exactly where no two host entries
/// have the same name and no entry lists an attribute name twice.
/// Otherwise it fails with a duplicate host or a duplicate attribute.
pub proof fn lemma_no_merging(hosts: Seq<HostEntryView>)
    ensures
        fold_hosts(hosts) is Ok <==> distinct_hosts(hosts) && distinct_attributes_everywhere(hosts),
        fold_hosts(hosts) matches Err(failure) ==> failure is DuplicateHost || failure
            is DuplicateAttribute,
{
    lemma_fold_hosts(hosts);
    lemma_fold_hosts_failure(hosts);
}

/// Empty file: a text that holds nothing but gaps conforms to the grammar
/// and parses into the empty model.
pub proof fn lemma_no_entries(s: Seq<u8>)
    requires
        gap_end(s, 0, false) >= s.len(),
    ensures
        genders_file(s) == Ok::<Tree, Fault>(
            Tree {
                rule: Rule::GendersFile,
                start: 0,
                end: s.len() as int,
                children: seq![leaf(Rule::EndOfInput, s.len() as int, s.len() as int)],
            },
        ),
        parse_outcome(s) == Ok::<HostMap, Failure>(Map::empty()),
{
}

/// The empty text parses into the empty model.
pub proof fn lemma_empty_text()
    ensures
        parse_outcome(Seq::<u8>::empty()) == Ok::<HostMap, Failure>(Map::empty()),
{
    lemma_no_entries(Seq::<u8>::empty());
}

/// Malformed input: a valid text fails with a syntax error exactly where
/// the grammar rejects it, with the grammar's fault, and then gives no
/// model. No valid text gives an internal shape mismatch.
pub proof fn lemma_syntax_error(s: Seq<u8>)
    requires
        valid_utf8(s),
    ensures
        genders_file(s) matches Err(fault) ==> parse_outcome(s) == Err::<HostMap, Failure>(
            Failure::Syntax(fault),
        ),
        parse_outcome(s) matches Err(Failure::Syntax(fault)) ==> genders_file(s) == Err::<
            Tree,
            Fault,
        >(fault),
        !(parse_outcome(s) matches Err(Failure::InternalShapeMismatch)),
{
    lemma_file_typed(s);
    if let Ok(tree) = genders_file(s) {
        lemma_fold_hosts_failure(file_of(s, tree)->Some_0);
    }
}

/// Unterminated attribute list: where a `,` follows an attribute and no
/// identifier follows the `,`, the attributes are a fault behind the `,`,
/// where an attribute was expected.
pub proof fn lemma_unterminated_list(s: Seq<u8>, at: int)
    requires
        attribute(s, at) matches Ok(first) && first.end < s.len() && s[first.end] == COMMA && (
        first.end + 1 >= s.len() || !is_ident_byte(s[first.end + 1])),
    ensures
        attributes(s, at) == Err::<Seq<Tree>, Fault>(
            Fault { offset: attribute(s, at)->Ok_0.end + 1, expected: Rule::Attribute },
        ),
{
    reveal_with_fuel(attributes, 2);
}

/// Missing identifier: where a host entry is due at a byte that starts no
/// identifier, the host entries are a fault at that byte, where a host
/// entry was expected.
pub proof fn lemma_missing_identifier(s: Seq<u8>, at: int)
    requires
        0 <= at < s.len(),
        gap_end(s, at, false) == at,
        !is_ident_byte(s[at]),
    ensures
        host_entries(s, at) == Err::<Seq<Tree>, Fault>(
            Fault { offset: at, expected: Rule::HostEntry },
        ),
{
}

} // verus!
