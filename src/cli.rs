//! The options of a run and how they settle the patch's output path and
//! format.
use vstd::prelude::*;

use crate::archive::{extension, extension_of, file_name_of, opt_view, path_file_name, stem, stem_of};
use crate::hasher::push_char;

verus! {

/// The options of a run.
pub struct Cli {
    /// The archive of the new version.
    pub current_version_path: String,
    /// The archive of the previous version.
    pub previous_version_path: String,
    /// Where the patch goes; `ota` when not given.
    pub output_path: Option<String>,
    /// Where archives are extracted.
    pub temp_dir_path: Option<String>,
    /// The patch's container format.
    pub format: Option<String>,
}

/// What `Path::parent` gives for a path.
pub uninterp spec fn parent_of(p: Seq<char>) -> Option<Seq<char>>;

/// Relies on `std::path::Path::parent`: the path without its final
/// component, none for a root or an empty path.
#[verifier::external_body]
fn path_parent(path: &str) -> (r: Option<String>)
    ensures
        match r {
            Some(q) => parent_of(path@) == Some(q@),
            None => parent_of(path@) is None,
        },
{
    match std::path::Path::new(path).parent() {
        Some(q) => Some(q.to_string_lossy().into_owned()),
        None => None,
    }
}

pub open spec fn default_output() -> Seq<char> {
    seq!['o', 't', 'a']
}

pub open spec fn default_format() -> Seq<char> {
    seq!['z', 'i', 'p']
}

/// The output path that was asked for, or the default.
pub open spec fn output_of(output: Option<Seq<char>>) -> Seq<char> {
    match output {
        Some(o) => o,
        None => default_output(),
    }
}

/// The extension of a file name, if there is a name.
pub open spec fn name_extension(name: Option<Seq<char>>) -> Option<Seq<char>> {
    match name {
        Some(n) => extension_of(n),
        None => None,
    }
}

/// The patch format: the one asked for, else the extension of the output's
/// file name `name`, else `zip`.
pub open spec fn settled_format(format: Option<Seq<char>>, name: Option<Seq<char>>) -> Seq<char> {
    match format {
        Some(f) => f,
        None => match name_extension(name) {
            Some(e) => e,
            None => default_format(),
        },
    }
}

/// The output path for output `o` with file name `name` and parent
/// directory `parent`: where a format was asked for, the file stem with that
/// format as extension, in the parent directory; else the output, given the
/// format as extension where its name has none.
pub open spec fn settled_path(
    o: Seq<char>,
    format: Option<Seq<char>>,
    name: Option<Seq<char>>,
    parent: Option<Seq<char>>,
) -> Seq<char> {
    let f = settled_format(format, name);
    if format is Some {
        let base = match name {
            Some(n) => stem_of(n),
            None => o,
        };
        let named = base + seq!['.'] + f;
        match parent {
            Some(p) => if p.len() == 0 {
                named
            } else {
                p + seq!['/'] + named
            },
            None => named,
        }
    } else if name_extension(name) is None {
        o + seq!['.'] + f
    } else {
        o
    }
}

/// The patch format of a run.
pub open spec fn format_of_run(output: Option<Seq<char>>, format: Option<Seq<char>>) -> Seq<char> {
    settled_format(format, file_name_of(output_of(output)))
}

/// The output path of a run.
pub open spec fn output_path_of_run(output: Option<Seq<char>>, format: Option<Seq<char>>) -> Seq<char> {
    let o = output_of(output);
    settled_path(o, format, file_name_of(o), parent_of(o))
}

/// The output path and format for output `output`, whose file name is
/// `name` and parent directory `parent`.
pub fn settle_output(
    output: &str,
    format: &Option<String>,
    name: &Option<String>,
    parent: &Option<String>,
) -> (r: (String, String))
    ensures
        r.0@ == settled_path(output@, opt_view(*format), opt_view(*name), opt_view(*parent)),
        r.1@ == settled_format(opt_view(*format), opt_view(*name)),
{
    let ext = match name {
        Some(n) => extension(n.as_str()),
        None => None,
    };
    let no_ext = ext.is_none();
    let fmt = match format {
        Some(f) => f.clone(),
        None => match ext {
            Some(e) => e,
            None => {
                let d = String::from_str("zip");
                proof {
                    reveal_strlit("zip");
                    assert(d@ =~= default_format());
                }
                d
            },
        },
    };
    let path = if format.is_some() {
        let base = match name {
            Some(n) => stem(n.as_str()),
            None => output.to_owned(),
        };
        let named = join_with(base.as_str(), '.', fmt.as_str());
        match parent {
            Some(p) => if p.unicode_len() == 0 {
                named
            } else {
                join_with(p.as_str(), '/', named.as_str())
            },
            None => named,
        }
    } else if no_ext {
        join_with(output, '.', fmt.as_str())
    } else {
        output.to_owned()
    };
    (path, fmt)
}

fn join_with(a: &str, sep: char, b: &str) -> (r: String)
    ensures
        r@ == a@ + seq![sep] + b@,
{
    let mut r = a.to_owned();
    push_char(&mut r, sep);
    r.append(b);
    r
}

impl Cli {
    /// The patch's output path and format, settled from the options.
    pub fn resolve_output(&self) -> (r: (String, String))
        ensures
            r.0@ == output_path_of_run(opt_view(self.output_path), opt_view(self.format)),
            r.1@ == format_of_run(opt_view(self.output_path), opt_view(self.format)),
    {
        let output = match &self.output_path {
            Some(o) => o.clone(),
            None => {
                let d = String::from_str("ota");
                proof {
                    reveal_strlit("ota");
                    assert(d@ =~= default_output());
                }
                d
            },
        };
        let name = path_file_name(output.as_str());
        let parent = path_parent(output.as_str());
        settle_output(output.as_str(), &self.format, &name, &parent)
    }
}

} // verus!
