//! The lookup structure of a genders file, and the fold that builds it.

use vstd::prelude::*;
use crate::error::{Failure, GendersError};
use crate::syntax::{
    attribute_views, value_view, Attribute, AttributeValue, AttributeValueView, AttributeView,
    GendersFile, HostEntryView,
};
use crate::text::same_text;

verus! {

/// The attributes of one host: from each name to its value, if it has one.
pub type AttributeMap = Map<Seq<char>, Option<AttributeValueView>>;

/// The hosts of a file: from each host name to its attributes.
pub type HostMap = Map<Seq<char>, AttributeMap>;

/// Whether no two of the attributes have the same name.
pub open spec fn distinct_attributes(attributes: Seq<AttributeView>) -> bool {
    forall|i: int, j: int|
        #![trigger attributes[i], attributes[j]]
        0 <= i < j < attributes.len() ==> attributes[i].name != attributes[j].name
}

/// Whether no two of the host entries have the same name.
pub open spec fn distinct_hosts(hosts: Seq<HostEntryView>) -> bool {
    forall|i: int, j: int|
        #![trigger hosts[i], hosts[j]]
        0 <= i < j < hosts.len() ==> hosts[i].name != hosts[j].name
}

/// The map that holds each attribute under its name; of two attributes
/// with one name, the later one.
pub open spec fn attribute_table(attributes: Seq<AttributeView>) -> AttributeMap
    decreases attributes.len(),
{
    if attributes.len() == 0 {
        Map::empty()
    } else {
        attribute_table(attributes.drop_last()).insert(
            attributes.last().name,
            attributes.last().value,
        )
    }
}

/// Folds the attributes of `host` into a map, one after the other. An
/// attribute whose name the map holds already ends the fold with a
/// duplicate attribute failure that names the host and the attribute.
pub open spec fn fold_attributes(host: Seq<char>, attributes: Seq<AttributeView>) -> Result<
    AttributeMap,
    Failure,
>
    decreases attributes.len(),
{
    if attributes.len() == 0 {
        Ok(Map::empty())
    } else {
        match fold_attributes(host, attributes.drop_last()) {
            Err(failure) => Err(failure),
            Ok(map) => {
                if map.contains_key(attributes.last().name) {
                    Err(Failure::DuplicateAttribute { host, attribute: attributes.last().name })
                } else {
                    Ok(map.insert(attributes.last().name, attributes.last().value))
                }
            },
        }
    }
}

/// Folds the host entries into a map, one after the other. For each entry
/// the attributes are folded first; then a host whose name the map holds
/// already ends the fold with a duplicate host failure that names it.
pub open spec fn fold_hosts(hosts: Seq<HostEntryView>) -> Result<HostMap, Failure>
    decreases hosts.len(),
{
    if hosts.len() == 0 {
        Ok(Map::empty())
    } else {
        match fold_hosts(hosts.drop_last()) {
            Err(failure) => Err(failure),
            Ok(map) => match fold_attributes(hosts.last().name, hosts.last().attributes) {
                Err(failure) => Err(failure),
                Ok(attributes) => {
                    if map.contains_key(hosts.last().name) {
                        Err(Failure::DuplicateHost { host: hosts.last().name })
                    } else {
                        Ok(map.insert(hosts.last().name, attributes))
                    }
                },
            },
        }
    }
}

/// The table holds the name of each attribute.
pub proof fn lemma_table_holds(attributes: Seq<AttributeView>, i: int)
    requires
        0 <= i < attributes.len(),
    ensures
        attribute_table(attributes).contains_key(attributes[i].name),
    decreases attributes.len(),
{
    if i < attributes.len() - 1 {
        lemma_table_holds(attributes.drop_last(), i);
    }
}

/// A name that the table holds is the name of one of the attributes.
pub proof fn lemma_table_key(attributes: Seq<AttributeView>, name: Seq<char>) -> (i: int)
    requires
        attribute_table(attributes).contains_key(name),
    ensures
        0 <= i < attributes.len(),
        attributes[i].name == name,
    decreases attributes.len(),
{
    if attributes.last().name == name {
        attributes.len() - 1
    } else {
        lemma_table_key(attributes.drop_last(), name)
    }
}

/// Where no two attributes have the same name, the table holds under each
/// name the value of the attribute of that name.
pub proof fn lemma_table_value(attributes: Seq<AttributeView>, i: int)
    requires
        distinct_attributes(attributes),
        0 <= i < attributes.len(),
    ensures
        attribute_table(attributes).contains_key(attributes[i].name),
        attribute_table(attributes)[attributes[i].name] == attributes[i].value,
    decreases attributes.len(),
{
    if i < attributes.len() - 1 {
        let front = attributes.drop_last();
        assert(distinct_attributes(front));
        lemma_table_value(front, i);
    }
}

/// The fold of attributes succeeds exactly where no two of them have the
/// same name, and then gives their table.
pub proof fn lemma_fold_attributes(host: Seq<char>, attributes: Seq<AttributeView>)
    ensures
        match fold_attributes(host, attributes) {
            Ok(map) => distinct_attributes(attributes) && map == attribute_table(attributes),
            Err(failure) => !distinct_attributes(attributes),
        },
    decreases attributes.len(),
{
    if attributes.len() > 0 {
        let front = attributes.drop_last();
        let last = attributes.len() - 1;
        lemma_fold_attributes(host, front);
        match fold_attributes(host, front) {
            Err(_) => {
                let (a, b) = choose|a: int, b: int|
                    0 <= a < b < front.len() && front[a].name == front[b].name;
                assert(attributes[a].name == attributes[b].name);
            },
            Ok(map) => {
                if map.contains_key(attributes[last].name) {
                    let a = lemma_table_key(front, attributes[last].name);
                    assert(attributes[a].name == attributes[last].name);
                } else {
                    assert forall|a: int, b: int| 0 <= a < b < attributes.len() implies attributes[a].name
                        != attributes[b].name by {
                        if b < last {
                            assert(front[a].name != front[b].name);
                        } else {
                            lemma_table_holds(front, a);
                        }
                    }
                }
            },
        }
    }
}

/// A fold of attributes that has failed on the first `k` of them fails in
/// the same way on all of them.
pub proof fn lemma_fold_attributes_failed(host: Seq<char>, attributes: Seq<AttributeView>, k: int)
    requires
        0 <= k <= attributes.len(),
        fold_attributes(host, attributes.take(k)) is Err,
    ensures
        fold_attributes(host, attributes) == fold_attributes(host, attributes.take(k)),
    decreases attributes.len(),
{
    if k == attributes.len() {
        assert(attributes.take(k) =~= attributes);
    } else {
        assert(attributes.drop_last().take(k) =~= attributes.take(k));
        lemma_fold_attributes_failed(host, attributes.drop_last(), k);
    }
}

/// A fold of host entries that has failed on the first `k` of them fails in
/// the same way on all of them.
pub proof fn lemma_fold_hosts_failed(hosts: Seq<HostEntryView>, k: int)
    requires
        0 <= k <= hosts.len(),
        fold_hosts(hosts.take(k)) is Err,
    ensures
        fold_hosts(hosts) == fold_hosts(hosts.take(k)),
    decreases hosts.len(),
{
    if k == hosts.len() {
        assert(hosts.take(k) =~= hosts);
    } else {
        assert(hosts.drop_last().take(k) =~= hosts.take(k));
        lemma_fold_hosts_failed(hosts.drop_last(), k);
    }
}

/// The map that holds the table of each host entry under the entry's
/// name; of two entries with one name, the later one.
pub open spec fn host_table(hosts: Seq<HostEntryView>) -> HostMap
    decreases hosts.len(),
{
    if hosts.len() == 0 {
        Map::empty()
    } else {
        host_table(hosts.drop_last()).insert(
            hosts.last().name,
            attribute_table(hosts.last().attributes),
        )
    }
}

/// The host table holds the name of each entry.
pub proof fn lemma_host_table_holds(hosts: Seq<HostEntryView>, i: int)
    requires
        0 <= i < hosts.len(),
    ensures
        host_table(hosts).contains_key(hosts[i].name),
    decreases hosts.len(),
{
    if i < hosts.len() - 1 {
        lemma_host_table_holds(hosts.drop_last(), i);
    }
}

/// A name that the host table holds is the name of one of the entries.
pub proof fn lemma_host_table_key(hosts: Seq<HostEntryView>, name: Seq<char>) -> (i: int)
    requires
        host_table(hosts).contains_key(name),
    ensures
        0 <= i < hosts.len(),
        hosts[i].name == name,
    decreases hosts.len(),
{
    if hosts.last().name == name {
        hosts.len() - 1
    } else {
        lemma_host_table_key(hosts.drop_last(), name)
    }
}

/// Where no two entries have the same name, the host table holds under
/// each name the table of the entry of that name.
pub proof fn lemma_host_table_value(hosts: Seq<HostEntryView>, i: int)
    requires
        distinct_hosts(hosts),
        0 <= i < hosts.len(),
    ensures
        host_table(hosts).contains_key(hosts[i].name),
        host_table(hosts)[hosts[i].name] == attribute_table(hosts[i].attributes),
    decreases hosts.len(),
{
    if i < hosts.len() - 1 {
        let front = hosts.drop_last();
        assert(distinct_hosts(front));
        lemma_host_table_value(front, i);
    }
}

/// Whether no host entry lists an attribute name twice.
pub open spec fn distinct_attributes_everywhere(hosts: Seq<HostEntryView>) -> bool {
    forall|i: int| 0 <= i < hosts.len() ==> distinct_attributes((#[trigger] hosts[i]).attributes)
}

/// The fold of host entries succeeds exactly where no two entries have the
/// same name and no entry lists an attribute name twice, and then gives
/// the host table.
pub proof fn lemma_fold_hosts(hosts: Seq<HostEntryView>)
    ensures
        match fold_hosts(hosts) {
            Ok(map) => distinct_hosts(hosts) && distinct_attributes_everywhere(hosts) && map
                == host_table(hosts),
            Err(failure) => !(distinct_hosts(hosts) && distinct_attributes_everywhere(hosts)),
        },
    decreases hosts.len(),
{
    if hosts.len() > 0 {
        let front = hosts.drop_last();
        let last = hosts.len() - 1;
        lemma_fold_hosts(front);
        lemma_fold_attributes(hosts[last].name, hosts[last].attributes);
        match fold_hosts(front) {
            Err(_) => {
                if distinct_hosts(hosts) && distinct_attributes_everywhere(hosts) {
                    assert forall|a: int, b: int| 0 <= a < b < front.len() implies front[a].name
                        != front[b].name by {
                        assert(hosts[a].name != hosts[b].name);
                    }
                    assert forall|i: int| 0 <= i < front.len() implies distinct_attributes(
                        (#[trigger] front[i]).attributes,
                    ) by {
                        assert(front[i] == hosts[i]);
                    }
                }
            },
            Ok(map) => {
                if fold_attributes(hosts[last].name, hosts[last].attributes) is Ok {
                    if map.contains_key(hosts[last].name) {
                        let a = lemma_host_table_key(front, hosts[last].name);
                        assert(hosts[a].name == hosts[last].name);
                    } else {
                        assert forall|a: int, b: int|
                            0 <= a < b < hosts.len() implies hosts[a].name != hosts[b].name by {
                            if b < last {
                                assert(front[a].name != front[b].name);
                            } else {
                                lemma_host_table_holds(front, a);
                            }
                        }
                        assert forall|i: int| 0 <= i < hosts.len() implies distinct_attributes(
                            (#[trigger] hosts[i]).attributes,
                        ) by {
                            if i < last {
                                assert(front[i] == hosts[i]);
                            }
                        }
                    }
                }
            },
        }
    }
}

/// The attributes of one host, by name. No name occurs twice.
#[derive(Debug)]
pub struct Attributes<'src> {
    entries: Vec<Attribute<'src>>,
}

impl<'src> View for Attributes<'src> {
    type V = AttributeMap;

    closed spec fn view(&self) -> AttributeMap {
        attribute_table(attribute_views(self.entries@))
    }
}

/// Finds the first of the attributes that has the given name.
fn find_attribute(entries: &Vec<Attribute>, name: &str) -> (r: Option<usize>)
    ensures
        match r {
            Some(i) => i < entries@.len() && entries@[i as int].name@ == name@,
            None => forall|k: int| 0 <= k < entries@.len() ==> (#[trigger] entries@[k]).name@ != name@,
        },
{
    let mut i: usize = 0;
    while i < entries.len()
        invariant
            i <= entries@.len(),
            forall|k: int| 0 <= k < i ==> (#[trigger] entries@[k]).name@ != name@,
        decreases entries@.len() - i,
    {
        if same_text(entries[i].name, name) {
            return Some(i);
        }
        i += 1;
    }
    None
}

impl<'src> Attributes<'src> {
    #[verifier::type_invariant]
    spec fn well_formed(self) -> bool {
        distinct_attributes(attribute_views(self.entries@))
    }

    /// The attributes in the order of the text.
    pub closed spec fn in_order(&self) -> Seq<AttributeView> {
        attribute_views(self.entries@)
    }

    /// Folds the attributes of `host` into a map by name.
    ///
    /// Succeeds exactly where no two attributes have the same name. The
    /// first attribute whose name occurred before it is reported as a
    /// duplicate attribute of `host`.
    pub fn from_list(host: &'src str, list: &Vec<Attribute<'src>>) -> (r: Result<
        Attributes<'src>,
        GendersError<'src>,
    >)
        ensures
            match r {
                Ok(attributes) => fold_attributes(host@, attribute_views(list@)) == Ok::<
                    AttributeMap,
                    Failure,
                >(attributes@) && attributes.in_order() == attribute_views(list@),
                Err(e) => fold_attributes(host@, attribute_views(list@)) == Err::<
                    AttributeMap,
                    Failure,
                >(e@),
            },
    {
        let ghost all = attribute_views(list@);
        let mut entries: Vec<Attribute<'src>> = Vec::new();
        let mut j: usize = 0;
        while j < list.len()
            invariant
                j <= list@.len(),
                all == attribute_views(list@),
                entries@ == list@.take(j as int),
                fold_attributes(host@, all.take(j as int)) is Ok,
            decreases list@.len() - j,
        {
            let attribute = list[j];
            let ghost front = all.take(j as int);
            let ghost next = all.take(j + 1);
            proof {
                assert(next.drop_last() =~= front);
                lemma_fold_attributes(host@, front);
            }
            match find_attribute(&entries, attribute.name) {
                Some(i) => {
                    proof {
                        lemma_table_holds(front, i as int);
                        lemma_fold_attributes_failed(host@, all, j + 1);
                    }
                    return Err(
                        GendersError::DuplicateAttribute { host, attribute: attribute.name },
                    );
                },
                None => {
                    proof {
                        if attribute_table(front).contains_key(attribute.name@) {
                            let i = lemma_table_key(front, attribute.name@);
                            assert(entries@[i].name@ == front[i].name);
                        }
                    }
                },
            }
            entries.push(attribute);
            j += 1;
        }
        proof {
            assert(all.take(j as int) =~= all);
            assert(entries@ =~= list@);
            lemma_fold_attributes(host@, all);
        }
        Ok(Attributes { entries })
    }

    /// Looks an attribute up by name.
    ///
    /// Returns `None` where the host has no attribute of that name,
    /// `Some(None)` for a flag, and the value otherwise.
    pub fn get(&self, name: &str) -> (r: Option<Option<AttributeValue<'src>>>)
        ensures
            match r {
                Some(value) => self@.contains_key(name@) && self@[name@] == value_view(value),
                None => !self@.contains_key(name@),
            },
    {
        let ghost all = attribute_views(self.entries@);
        proof {
            use_type_invariant(self);
        }
        match find_attribute(&self.entries, name) {
            Some(i) => {
                proof {
                    lemma_table_value(all, i as int);
                }
                Some(self.entries[i].value)
            },
            None => {
                proof {
                    if attribute_table(all).contains_key(name@) {
                        lemma_table_key(all, name@);
                    }
                }
                None
            },
        }
    }

    /// Tests whether the host has an attribute of that name.
    pub fn contains(&self, name: &str) -> (r: bool)
        ensures
            r == self@.contains_key(name@),
    {
        self.get(name).is_some()
    }

    /// The attributes in the order of the text.
    ///
    /// Each attribute is held by the map under its name, and the map holds
    /// no other name.
    pub fn entries(&self) -> (r: &Vec<Attribute<'src>>)
        ensures
            attribute_views(r@) == self.in_order(),
            self@ == attribute_table(attribute_views(r@)),
            distinct_attributes(attribute_views(r@)),
            forall|i: int|
                0 <= i < r@.len() ==> self@.contains_key((#[trigger] r@[i]).name@) && self@[r@[i].name@]
                    == value_view(r@[i].value),
            forall|name: Seq<char>| #[trigger]
                self@.contains_key(name) ==> exists|i: int|
                    0 <= i < r@.len() && (#[trigger] r@[i]).name@ == name,
    {
        let ghost all = attribute_views(self.entries@);
        proof {
            use_type_invariant(self);
            assert forall|i: int| 0 <= i < self.entries@.len() implies self@.contains_key(
                (#[trigger] self.entries@[i]).name@,
            ) && self@[self.entries@[i].name@] == value_view(self.entries@[i].value) by {
                lemma_table_value(all, i);
            }
            assert forall|name: Seq<char>| #[trigger] self@.contains_key(name) implies exists|i: int|
                0 <= i < self.entries@.len() && (#[trigger] self.entries@[i]).name@ == name by {
                lemma_table_key(all, name);
            }
        }
        &self.entries
    }
}

/// One host of the model: its name and its attributes.
#[derive(Debug)]
struct Host<'src> {
    name: &'src str,
    attributes: Attributes<'src>,
}

impl<'src> Host<'src> {
    /// The host entry that the host was made from.
    spec fn entry(self) -> HostEntryView {
        HostEntryView { name: self.name@, attributes: self.attributes.in_order() }
    }
}

/// The host entries that hosts were made from.
spec fn host_entries_of(hosts: Seq<Host>) -> Seq<HostEntryView> {
    hosts.map_values(|h: Host| h.entry())
}

/// The hosts of a genders file, by name, each with its attributes by name.
/// No host name occurs twice, and under one host no attribute name.
#[derive(Debug)]
pub struct Genders<'src> {
    hosts: Vec<Host<'src>>,
}

impl<'src> View for Genders<'src> {
    type V = HostMap;

    closed spec fn view(&self) -> HostMap {
        host_table(host_entries_of(self.hosts@))
    }
}

/// Finds the first of the hosts that has the given name.
fn find_host(hosts: &Vec<Host>, name: &str) -> (r: Option<usize>)
    ensures
        match r {
            Some(i) => i < hosts@.len() && hosts@[i as int].name@ == name@,
            None => forall|k: int| 0 <= k < hosts@.len() ==> (#[trigger] hosts@[k]).name@ != name@,
        },
{
    let mut i: usize = 0;
    while i < hosts.len()
        invariant
            i <= hosts@.len(),
            forall|k: int| 0 <= k < i ==> (#[trigger] hosts@[k]).name@ != name@,
        decreases hosts@.len() - i,
    {
        if same_text(hosts[i].name, name) {
            return Some(i);
        }
        i += 1;
    }
    None
}

impl<'src> Genders<'src> {
    #[verifier::type_invariant]
    spec fn well_formed(self) -> bool {
        distinct_hosts(host_entries_of(self.hosts@))
    }

    /// The host entries that the model was made from, in the order of the
    /// text.
    pub closed spec fn in_order(&self) -> Seq<HostEntryView> {
        host_entries_of(self.hosts@)
    }

    /// Folds the host entries of a file into the model.
    ///
    /// Succeeds exactly where no two entries have the same name and no
    /// entry lists an attribute name twice. Otherwise the first entry, in
    /// the order of the text, that lists an attribute name twice or whose
    /// name occurred before decides the error; within that entry a
    /// duplicate attribute comes before the duplicate host.
    pub fn from_file(file: &GendersFile<'src>) -> (r: Result<Genders<'src>, GendersError<'src>>)
        ensures
            match r {
                Ok(genders) => fold_hosts(file@) == Ok::<HostMap, Failure>(genders@)
                    && genders.in_order() == file@,
                Err(e) => fold_hosts(file@) == Err::<HostMap, Failure>(e@),
            },
    {
        let ghost all = file@;
        let mut hosts: Vec<Host<'src>> = Vec::new();
        let mut i: usize = 0;
        while i < file.hosts.len()
            invariant
                i <= file.hosts@.len(),
                all == file@,
                all.len() == file.hosts@.len(),
                host_entries_of(hosts@) == all.take(i as int),
                fold_hosts(all.take(i as int)) is Ok,
            decreases file.hosts@.len() - i,
        {
            let entry = &file.hosts[i];
            let ghost front = all.take(i as int);
            let ghost next = all.take(i + 1);
            proof {
                assert(next.drop_last() =~= front);
                lemma_fold_hosts(front);
            }
            let attributes = match Attributes::from_list(entry.name, &entry.attributes) {
                Err(e) => {
                    proof {
                        lemma_fold_hosts_failed(all, i + 1);
                    }
                    return Err(e);
                },
                Ok(attributes) => attributes,
            };
            match find_host(&hosts, entry.name) {
                Some(k) => {
                    proof {
                        lemma_host_table_holds(front, k as int);
                        lemma_fold_hosts_failed(all, i + 1);
                    }
                    return Err(GendersError::DuplicateHost { host: entry.name });
                },
                None => {
                    proof {
                        if host_table(front).contains_key(entry.name@) {
                            lemma_host_table_key(front, entry.name@);
                        }
                    }
                },
            }
            hosts.push(Host { name: entry.name, attributes });
            i += 1;
        }
        proof {
            assert(all.take(i as int) =~= all);
            lemma_fold_hosts(all);
        }
        Ok(Genders { hosts })
    }

    /// The names of the hosts, in the order of the text.
    ///
    /// Every name is a host of the model, every host of the model is
    /// named, and none twice.
    pub fn hosts(&self) -> (r: Vec<&'src str>)
        ensures
            r@.len() == self.in_order().len(),
            forall|i: int| 0 <= i < r@.len() ==> (#[trigger] r@[i])@ == self.in_order()[i].name,
            forall|i: int| 0 <= i < r@.len() ==> self@.contains_key(#[trigger] r@[i]@),
            forall|name: Seq<char>| #[trigger]
                self@.contains_key(name) ==> exists|i: int| 0 <= i < r@.len() && #[trigger] r@[i]@ == name,
            forall|i: int, j: int| 0 <= i < j < r@.len() ==> #[trigger] r@[i]@ != #[trigger] r@[j]@,
    {
        let ghost all = host_entries_of(self.hosts@);
        proof {
            use_type_invariant(self);
        }
        let mut names: Vec<&'src str> = Vec::new();
        let mut i: usize = 0;
        while i < self.hosts.len()
            invariant
                i <= self.hosts@.len(),
                names@.len() == i,
                forall|k: int| 0 <= k < i ==> (#[trigger] names@[k])@ == self.hosts@[k].name@,
            decreases self.hosts@.len() - i,
        {
            names.push(self.hosts[i].name);
            i += 1;
        }
        proof {
            assert forall|i: int| 0 <= i < names@.len() implies self@.contains_key(
                #[trigger] names@[i]@,
            ) by {
                lemma_host_table_holds(all, i);
            }
            assert forall|name: Seq<char>| #[trigger] self@.contains_key(name) implies exists|i: int|
                0 <= i < names@.len() && #[trigger] names@[i]@ == name by {
                let i = lemma_host_table_key(all, name);
                assert(names@[i]@ == name);
            }
            assert forall|i: int, j: int| 0 <= i < j < names@.len() implies #[trigger] names@[i]@
                != #[trigger] names@[j]@ by {
                assert(all[i].name != all[j].name);
            }
        }
        names
    }

    /// Looks the attributes of a host up by the host's name.
    ///
    /// Returns `None` where the model has no host of that name.
    pub fn attributes(&self, host: &str) -> (r: Option<&Attributes<'src>>)
        ensures
            match r {
                Some(attributes) => self@.contains_key(host@) && self@[host@] == attributes@
                    && exists|i: int|
                    0 <= i < self.in_order().len() && (#[trigger] self.in_order()[i]).name == host@
                        && self.in_order()[i].attributes == attributes.in_order(),
                None => !self@.contains_key(host@),
            },
    {
        let ghost all = host_entries_of(self.hosts@);
        proof {
            use_type_invariant(self);
        }
        match find_host(&self.hosts, host) {
            Some(i) => {
                proof {
                    lemma_host_table_value(all, i as int);
                    assert(self.in_order()[i as int].name == host@ && self.in_order()[i as int].attributes
                        == self.hosts@[i as int].attributes.in_order());
                }
                Some(&self.hosts[i].attributes)
            },
            None => {
                proof {
                    if host_table(all).contains_key(host@) {
                        lemma_host_table_key(all, host@);
                    }
                }
                None
            },
        }
    }

    /// Tests whether the model has a host of that name.
    pub fn contains_host(&self, host: &str) -> (r: bool)
        ensures
            r == self@.contains_key(host@),
    {
        self.attributes(host).is_some()
    }

    /// Looks the attribute of a host up by both names.
    ///
    /// Returns `None` where the model has no such host or the host no such
    /// attribute, `Some(None)` for a flag, and the value otherwise.
    pub fn get(&self, host: &str, attribute: &str) -> (r: Option<Option<AttributeValue<'src>>>)
        ensures
            match r {
                Some(value) => self@.contains_key(host@) && self@[host@].contains_key(attribute@)
                    && self@[host@][attribute@] == value_view(value),
                None => !self@.contains_key(host@) || !self@[host@].contains_key(attribute@),
            },
    {
        match self.attributes(host) {
            Some(attributes) => attributes.get(attribute),
            None => None,
        }
    }
}

impl<'src> TryFrom<GendersFile<'src>> for Genders<'src> {
    type Error = GendersError<'src>;

    /// Folds the host entries of a file into the model, as
    /// [`Genders::from_file`] does.
    fn try_from(file: GendersFile<'src>) -> (r: Result<Genders<'src>, GendersError<'src>>)
        ensures
            match r {
                Ok(genders) => fold_hosts(file@) == Ok::<HostMap, Failure>(genders@)
                    && genders.in_order() == file@,
                Err(e) => fold_hosts(file@) == Err::<HostMap, Failure>(e@),
            },
    {
        Genders::from_file(&file)
    }
}

impl<'src> vstd::std_specs::convert::TryFromSpecImpl<GendersFile<'src>> for Genders<'src> {
    /// What the conversion returns is stated by the `ensures` of
    /// `try_from` alone.
    open spec fn obeys_try_from_spec() -> bool {
        false
    }

    open spec fn try_from_spec(file: GendersFile<'src>) -> Result<Self, Self::Error> {
        arbitrary()
    }
}

} // verus!
