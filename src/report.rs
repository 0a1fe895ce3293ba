//! The records that a decode hands back for display.

use vstd::prelude::*;

verus! {

/// One line of output: a name, its rendered value, an optional description,
/// and the bit position that orders it among its siblings.
pub struct RegisterDescription {
    pub name: String,
    pub value: String,
    pub description: Option<String>,
    pub sort: u32,
}

/// The characters of an optional text.
pub open spec fn opt_view(s: Option<String>) -> Option<Seq<char>> {
    match s {
        Some(t) => Some(t@),
        None => None,
    }
}

/// What a `RegisterDescription` holds, as character sequences.
pub struct DescriptionView {
    pub name: Seq<char>,
    pub value: Seq<char>,
    pub description: Option<Seq<char>>,
    pub sort: u32,
}

impl View for RegisterDescription {
    type V = DescriptionView;

    open spec fn view(&self) -> DescriptionView {
        DescriptionView {
            name: self.name@,
            value: self.value@,
            description: opt_view(self.description),
            sort: self.sort,
        }
    }
}

/// The views of a list of records.
pub open spec fn views_of(rs: Seq<RegisterDescription>) -> Seq<DescriptionView> {
    rs.map_values(|r: RegisterDescription| r@)
}

/// The display line of a record: a tab, the name, ` =`, a tab and the value,
/// followed by the description in parentheses when there is one.
pub open spec fn line_of(d: DescriptionView) -> Seq<char> {
    let base = seq!['\t'] + d.name + seq![' ', '=', '\t'] + d.value;
    match d.description {
        Some(t) => base + seq![' ', '('] + t + seq![')'],
        None => base,
    }
}

/// A copy of an optional text.
pub fn copy_text(s: &Option<String>) -> (r: Option<String>)
    ensures
        r == *s,
{
    match s {
        Some(t) => Some(t.clone()),
        None => None,
    }
}

impl RegisterDescription {
    /// The line that displays this record.
    pub fn to_line(&self) -> (r: String)
        ensures
            r@ == line_of(self@),
    {
        let mut out = String::new();
        out.push('\t');
        out.append(self.name.as_str());
        out.push(' ');
        out.push('=');
        out.push('\t');
        out.append(self.value.as_str());
        match &self.description {
            Some(t) => {
                out.push(' ');
                out.push('(');
                out.append(t.as_str());
                out.push(')');
            },
            None => {},
        }
        assert(out@ =~= line_of(self@));
        out
    }
}

} // verus!
