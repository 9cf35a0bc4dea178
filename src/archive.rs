//! Recognising the container format of an archive from its file name.
use vstd::prelude::*;

use crate::text::{ends_with, ends_with_spec, str_eq};

verus! {

/// The container formats that snapshots and patches come in.
#[derive(Debug, Clone, Copy, PartialEq, Eq, Structural)]
pub enum ArchiveFormat {
    SevenZ,
    Zip,
    Tar,
    TarGz,
    TarXz,
    TarBz2,
    TarLz4,
}

/// What `Path::file_name` gives for a path.
pub uninterp spec fn file_name_of(p: Seq<char>) -> Option<Seq<char>>;

/// Relies on `std::path::Path::file_name`: the final component of the path,
/// none when the path ends in `..` or is a root. A component is never empty
/// and never holds the separator `/`.
#[verifier::external_body]
pub(crate) fn path_file_name(path: &str) -> (r: Option<String>)
    ensures
        match r {
            Some(n) => file_name_of(path@) == Some(n@),
            None => file_name_of(path@) is None,
        },
        r matches Some(n) ==> n@.len() > 0 && forall|i: int| 0 <= i < n@.len() ==> n@[i] != '/',
{
    match std::path::Path::new(path).file_name() {
        Some(n) => Some(n.to_string_lossy().into_owned()),
        None => None,
    }
}

pub open spec fn opt_view(o: Option<String>) -> Option<Seq<char>> {
    match o {
        Some(s) => Some(s@),
        None => None,
    }
}

/// The position of the last `.` in `s`, or -1.
pub open spec fn last_dot(s: Seq<char>) -> int
    decreases s.len(),
{
    if s.len() == 0 {
        -1
    } else if s.last() == '.' {
        s.len() - 1
    } else {
        last_dot(s.drop_last())
    }
}

/// The extension of a file name: what follows its last `.`, unless that
/// `.` is the first character or there is none.
pub open spec fn extension_of(name: Seq<char>) -> Option<Seq<char>> {
    let d = last_dot(name);
    if d > 0 {
        Some(name.subrange(d + 1, name.len() as int))
    } else {
        None
    }
}

/// A file name without its extension, as `Path::file_stem` has it.
pub open spec fn stem_of(name: Seq<char>) -> Seq<char> {
    let d = last_dot(name);
    if d > 0 {
        name.subrange(0, d)
    } else {
        name
    }
}

/// The archive type that a file name announces: a compound tar suffix or
/// `.7z` where present, else the extension.
pub open spec fn file_type_of(name: Seq<char>) -> Option<Seq<char>> {
    if ends_with_spec(name, ".tar.gz"@) {
        Some("tar.gz"@)
    } else if ends_with_spec(name, ".tar.xz"@) {
        Some("tar.xz"@)
    } else if ends_with_spec(name, ".tar.bz2"@) {
        Some("tar.bz2"@)
    } else if ends_with_spec(name, ".tar.lz4"@) {
        Some("tar.lz4"@)
    } else if ends_with_spec(name, ".7z"@) {
        Some("7z"@)
    } else {
        extension_of(name)
    }
}

/// The container format that an archive type names.
pub open spec fn format_of(t: Seq<char>) -> Option<ArchiveFormat> {
    if t == "7z"@ {
        Some(ArchiveFormat::SevenZ)
    } else if t == "zip"@ {
        Some(ArchiveFormat::Zip)
    } else if t == "tar"@ {
        Some(ArchiveFormat::Tar)
    } else if t == "gz"@ || t == "tar.gz"@ {
        Some(ArchiveFormat::TarGz)
    } else if t == "xz"@ || t == "tar.xz"@ {
        Some(ArchiveFormat::TarXz)
    } else if t == "bz2"@ || t == "tar.bz2"@ {
        Some(ArchiveFormat::TarBz2)
    } else if t == "lz4"@ || t == "tar.lz4"@ {
        Some(ArchiveFormat::TarLz4)
    } else {
        None
    }
}

proof fn lemma_last_dot_bound(s: Seq<char>)
    ensures
        -1 <= last_dot(s) < s.len(),
    decreases s.len(),
{
    if s.len() > 0 {
        lemma_last_dot_bound(s.drop_last());
    }
}

proof fn lemma_last_dot_prefix(s: Seq<char>, i: int)
    requires
        0 <= i <= s.len(),
        forall|j: int| i <= j < s.len() ==> s[j] != '.',
    ensures
        last_dot(s) == last_dot(s.subrange(0, i)),
    decreases s.len() - i,
{
    if i < s.len() {
        assert(s.drop_last() == s.subrange(0, s.len() - 1));
        lemma_last_dot_prefix(s.drop_last(), i);
        assert(s.drop_last().subrange(0, i) == s.subrange(0, i));
    } else {
        assert(s.subrange(0, i) == s);
    }
}

/// The extension of a file name, as `Path::extension` has it.
pub fn extension(name: &str) -> (r: Option<String>)
    ensures
        opt_view(r) == extension_of(name@),
{
    let n = name.unicode_len();
    let mut i: usize = n;
    while i > 0
        invariant
            n == name@.len(),
            i <= n,
            forall|j: int| i <= j < n ==> name@[j] != '.',
        decreases i,
    {
        if name.get_char(i - 1) == '.' {
            proof {
                lemma_last_dot_prefix(name@, i as int);
                assert(name@.subrange(0, i as int).last() == '.');
            }
            if i == 1 {
                return None;
            }
            return Some(name.substring_char(i, n).to_owned());
        }
        i = i - 1;
    }
    proof {
        lemma_last_dot_prefix(name@, 0);
    }
    None
}

/// A file name without its extension.
pub fn stem(name: &str) -> (r: String)
    ensures
        r@ == stem_of(name@),
{
    let n = name.unicode_len();
    let mut i: usize = n;
    while i > 0
        invariant
            n == name@.len(),
            i <= n,
            forall|j: int| i <= j < n ==> name@[j] != '.',
        decreases i,
    {
        if name.get_char(i - 1) == '.' {
            proof {
                lemma_last_dot_prefix(name@, i as int);
                assert(name@.subrange(0, i as int).last() == '.');
            }
            if i == 1 {
                return name.to_owned();
            }
            return name.substring_char(0, i - 1).to_owned();
        }
        i = i - 1;
    }
    proof {
        lemma_last_dot_prefix(name@, 0);
    }
    name.to_owned()
}

/// No `/` in `s`.
pub open spec fn slash_free(s: Seq<char>) -> bool {
    forall|i: int| 0 <= i < s.len() ==> s[i] != '/'
}

/// The archive type of the file that `path` names: `tar.gz`, `tar.xz`,
/// `tar.bz2`, `tar.lz4` or `7z` where the name ends so, else its extension.
/// None where the path has no file name or the name no extension.
pub fn get_file_type(path: &str) -> (r: Option<String>)
    ensures
        match file_name_of(path@) {
            None => r is None,
            Some(n) => opt_view(r) == file_type_of(n),
        },
        r matches Some(t) ==> slash_free(t@),
{
    match path_file_name(path) {
        Some(n) => file_type_of_name(n.as_str()),
        None => None,
    }
}

/// The archive type that a file name announces: `tar.gz`, `tar.xz`,
/// `tar.bz2`, `tar.lz4` or `7z` where the name ends so, else its extension.
pub fn file_type_of_name(name: &str) -> (r: Option<String>)
    ensures
        opt_view(r) == file_type_of(name@),
        slash_free(name@) ==> (r matches Some(t) ==> slash_free(t@)),
{
    proof {
        reveal_strlit("tar.gz");
        reveal_strlit("tar.xz");
        reveal_strlit("tar.bz2");
        reveal_strlit("tar.lz4");
        reveal_strlit("7z");
    }
    if ends_with(name, ".tar.gz") {
        return Some(String::from_str("tar.gz"));
    }
    if ends_with(name, ".tar.xz") {
        return Some(String::from_str("tar.xz"));
    }
    if ends_with(name, ".tar.bz2") {
        return Some(String::from_str("tar.bz2"));
    }
    if ends_with(name, ".tar.lz4") {
        return Some(String::from_str("tar.lz4"));
    }
    if ends_with(name, ".7z") {
        return Some(String::from_str("7z"));
    }
    let r = extension(name);
    proof {
        if slash_free(name@) {
            if r is Some {
                let t = r->Some_0@;
                let d = last_dot(name@);
                lemma_last_dot_bound(name@);
                assert(t == name@.subrange(d + 1, name@.len() as int));
                assert forall|i: int| 0 <= i < t.len() implies t[i] != '/' by {
                    assert(t[i] == name@[d + 1 + i]);
                }
            }
        }
    }
    r
}

/// The container format that an archive type names, if any.
pub fn archive_format(t: &str) -> (r: Option<ArchiveFormat>)
    ensures
        r == format_of(t@),
{
    if str_eq(t, "7z") {
        Some(ArchiveFormat::SevenZ)
    } else if str_eq(t, "zip") {
        Some(ArchiveFormat::Zip)
    } else if str_eq(t, "tar") {
        Some(ArchiveFormat::Tar)
    } else if str_eq(t, "gz") || str_eq(t, "tar.gz") {
        Some(ArchiveFormat::TarGz)
    } else if str_eq(t, "xz") || str_eq(t, "tar.xz") {
        Some(ArchiveFormat::TarXz)
    } else if str_eq(t, "bz2") || str_eq(t, "tar.bz2") {
        Some(ArchiveFormat::TarBz2)
    } else if str_eq(t, "lz4") || str_eq(t, "tar.lz4") {
        Some(ArchiveFormat::TarLz4)
    } else {
        None
    }
}

} // verus!
