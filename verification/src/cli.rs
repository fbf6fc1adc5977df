//! What the command line says, once its arguments are at hand as texts.

use crate::text::{chars_of, slice_text, split, split_chars};
use vstd::prelude::*;
use vstd::string::StringExecFns;

verus! {

/// A kind of token and the format that its values are written in, as the
/// command line declares them.
#[derive(Debug)]
pub struct DataDef {
    kind_name: String,
    format: String,
}

/// What a `DataDef` holds.
pub struct DataDefView {
    pub kind_name: Seq<char>,
    pub format: Seq<char>,
}

impl View for DataDef {
    type V = DataDefView;

    closed spec fn view(&self) -> DataDefView {
        DataDefView { kind_name: self.kind_name@, format: self.format@ }
    }
}

impl Default for DataDef {
    fn default() -> (r: DataDef)
        ensures
            r@.kind_name.len() == 0,
            r@.format.len() == 0,
    {
        DataDef { kind_name: String::new(), format: String::new() }
    }
}

impl DataDef {
    /// A declaration of `format` for the kind `kind_name`.
    pub fn new(kind_name: &str, format: &str) -> (r: DataDef)
        ensures
            r@.kind_name == kind_name@,
            r@.format == format@,
    {
        DataDef { kind_name: String::from_str(kind_name), format: String::from_str(format) }
    }

    /// The name of the kind.
    pub fn kind_name(&self) -> (r: &str)
        ensures
            r@ == self@.kind_name,
    {
        self.kind_name.as_str()
    }

    /// The format declared for the kind.
    pub fn format(&self) -> (r: &str)
        ensures
            r@ == self@.format,
    {
        self.format.as_str()
    }
}

/// The arguments of a run: the query, the declarations of formats, and the
/// regular expression that separates the tokens of a line.
#[derive(Debug)]
pub struct CommandArgs {
    pub expr: String,
    pub data_def: Vec<DataDef>,
    pub token_regex: String,
}

/// The separator of tokens where none is given: one space.
pub open spec fn default_separator() -> Seq<char> {
    " "@
}

/// What one declaration reads as: the text before the first `|` names the
/// kind, the text after it, up to the next `|` if there is one, is the
/// format. A text without `|` declares nothing.
pub open spec fn data_def_spec(entry: Seq<char>) -> Option<DataDefView> {
    let parts = split(entry, '|');
    if parts.len() >= 2 {
        Some(DataDefView { kind_name: parts[0], format: parts[1] })
    } else {
        None
    }
}

/// What a list of declarations reads as: the declarations between its
/// commas, each read by `data_def_spec`; `None` where one of them declares
/// nothing.
pub open spec fn data_defs_spec(text: Seq<char>) -> Option<Seq<DataDefView>> {
    let entries = split(text, ',');
    if forall|i: int| 0 <= i < entries.len() ==> data_def_spec(#[trigger] entries[i]) is Some {
        Some(Seq::new(entries.len(), |i: int| data_def_spec(entries[i])->0))
    } else {
        None
    }
}

/// The views of a row of declarations.
pub open spec fn data_def_views(defs: Seq<DataDef>) -> Seq<DataDefView> {
    Seq::new(defs.len(), |i: int| defs[i]@)
}

/// Reads the declarations of formats: `kind|format`, with commas between
/// them. No argument declares nothing; an argument with an entry that
/// lacks `|` is refused.
pub fn get_data_def(data_defs: Option<&str>) -> (r: Option<Vec<DataDef>>)
    ensures
        match data_defs {
            None => r matches Some(defs) && defs.len() == 0,
            Some(text) => match r {
                Some(defs) => data_defs_spec(text@) == Some(data_def_views(defs@)),
                None => data_defs_spec(text@) is None,
            },
        },
{
    let text = match data_defs {
        Some(text) => text,
        None => {
            return Some(Vec::new());
        },
    };
    let chars = chars_of(text);
    let n = chars.len();
    assert(chars@.subrange(0, n as int) =~= text@);
    let entries = split_chars(&chars, 0, n, ',');
    let ghost wanted = split(text@, ',');
    let mut out: Vec<DataDef> = Vec::new();
    let mut k: usize = 0;
    while k < entries.len()
        invariant
            k <= entries.len(),
            data_defs == Some(text),
            chars@ == text@,
            n == chars.len(),
            wanted == split(text@, ','),
            entries.len() == wanted.len(),
            forall|i: int|
                0 <= i < entries.len() ==> 0 <= (#[trigger] entries[i]).0 <= entries[i].1 <= n
                    && chars@.subrange(entries[i].0 as int, entries[i].1 as int) == wanted[i],
            out.len() == k,
            forall|i: int|
                0 <= i < k ==> data_def_spec(#[trigger] wanted[i]) == Some(out[i]@),
        decreases entries.len() - k,
    {
        let (from, to) = entries[k];
        let parts = split_chars(&chars, from, to, '|');
        if parts.len() < 2 {
            assert(data_def_spec(wanted[k as int]) is None);
            return None;
        }
        let def = DataDef {
            kind_name: slice_text(text, parts[0].0, parts[0].1),
            format: slice_text(text, parts[1].0, parts[1].1),
        };
        out.push(def);
        k += 1;
    }
    assert(data_def_views(out@) =~= Seq::new(
        wanted.len(),
        |i: int| data_def_spec(wanted[i])->0,
    ));
    Some(out)
}

/// The regular expression that separates tokens: the one given, or one
/// space where none is given.
pub fn get_token_sep(token_separators: Option<&str>) -> (r: String)
    ensures
        r@ == match token_separators {
            Some(given) => given@,
            None => default_separator(),
        },
{
    match token_separators {
        Some(given) => String::from_str(given),
        None => String::from_str(" "),
    }
}

/// Puts the arguments of a run together; `None` where the declarations of
/// formats are refused.
pub fn parse_cli(expr: &str, data_def: Option<&str>, token_sep: Option<&str>) -> (r: Option<
    CommandArgs,
>)
    ensures
        match r {
            Some(args) => {
                &&& args.expr@ == expr@
                &&& args.token_regex@ == match token_sep {
                    Some(given) => given@,
                    None => default_separator(),
                }
                &&& match data_def {
                    Some(text) => data_defs_spec(text@) == Some(data_def_views(args.data_def@)),
                    None => args.data_def.len() == 0,
                }
            },
            None => data_def matches Some(text) && data_defs_spec(text@) is None,
        },
{
    match get_data_def(data_def) {
        Some(defs) => Some(
            CommandArgs {
                expr: String::from_str(expr),
                data_def: defs,
                token_regex: get_token_sep(token_sep),
            },
        ),
        None => None,
    }
}

} // verus!
