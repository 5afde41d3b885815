//! The productions of the genders grammar.

use vstd::prelude::*;

verus! {

/// A production of the grammar. Every node of a syntax tree is tagged with
/// the production that matched it, and every syntax error names the
/// production that could not be matched.
#[derive(Clone, Copy, Debug, PartialEq, Eq, Structural)]
pub enum Rule {
    /// The whole file: host entries followed by the end of input.
    GendersFile,
    /// One host line: a host name and its attribute list.
    HostEntry,
    /// A host or attribute name.
    Ident,
    /// The comma-separated attributes of one host; possibly empty.
    AttributeList,
    /// One attribute: a name, optionally followed by `=` and a value.
    Attribute,
    /// The value of an attribute; wraps exactly one of the three typed forms.
    AttributeValue,
    /// The literal `true` or `false`.
    AttributeValueBool,
    /// One or more decimal digits that denote a 64-bit unsigned number.
    AttributeValueNumeric,
    /// Any other value token.
    AttributeValueString,
    /// The end of the input.
    EndOfInput,
}

impl Rule {
    /// The name of the production, as the grammar writes it.
    pub open spec fn name_text(self) -> Seq<char> {
        match self {
            Rule::GendersFile => "genders_file"@,
            Rule::HostEntry => "host_entry"@,
            Rule::Ident => "ident"@,
            Rule::AttributeList => "attribute_list"@,
            Rule::Attribute => "attribute"@,
            Rule::AttributeValue => "attribute_value"@,
            Rule::AttributeValueBool => "attribute_value_bool"@,
            Rule::AttributeValueNumeric => "attribute_value_numeric"@,
            Rule::AttributeValueString => "attribute_value_string"@,
            Rule::EndOfInput => "end_of_input"@,
        }
    }

    /// The name of the production, as the grammar writes it.
    pub fn name(self) -> (r: &'static str)
        ensures
            r@ == self.name_text(),
    {
        match self {
            Rule::GendersFile => "genders_file",
            Rule::HostEntry => "host_entry",
            Rule::Ident => "ident",
            Rule::AttributeList => "attribute_list",
            Rule::Attribute => "attribute",
            Rule::AttributeValue => "attribute_value",
            Rule::AttributeValueBool => "attribute_value_bool",
            Rule::AttributeValueNumeric => "attribute_value_numeric",
            Rule::AttributeValueString => "attribute_value_string",
            Rule::EndOfInput => "end_of_input",
        }
    }
}

} // verus!
