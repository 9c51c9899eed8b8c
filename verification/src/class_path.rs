//! Lookup roots for class bytes.
//!
//! A class path is an ordered list of roots, each a filesystem directory or
//! a path to an archive container.  The loading engine asks its driver to
//! probe one root at a time, strictly in configured order; this module holds
//! the root classification and the entry-name rule.

use vstd::prelude::*;
use vstd::string::StrSliceExecFns;
use vstd::string::StringExecFns;

verus! {

/// One lookup root: a directory, or an archive container identified by its
/// path.
#[derive(Debug)]
pub enum ClassPath {
    Directory(String),
    Jar(String),
}

/// Whether a path names an archive container.
pub open spec fn is_jar_path(s: Seq<char>) -> bool {
    s.len() >= 4 && s.subrange(s.len() - 4, s.len() as int) == ".jar"@
}

/// Whether a root is the right classification of a path.
pub open spec fn classpath_matches(cp: ClassPath, path: Seq<char>) -> bool {
    match cp {
        ClassPath::Directory(d) => d@ == path && !is_jar_path(path),
        ClassPath::Jar(p) => p@ == path && is_jar_path(path),
    }
}

/// Classifies a path: a `.jar` suffix makes it an archive root, anything
/// else a directory root.
pub fn path_to_classpath(path: &str) -> (r: ClassPath)
    ensures
        classpath_matches(r, path@),
{
    let n = path.unicode_len();
    let jar = n >= 4 && path.get_char(n - 4) == '.' && path.get_char(n - 3) == 'j' && path.get_char(
        n - 2,
    ) == 'a' && path.get_char(n - 1) == 'r';
    proof {
        reveal_strlit(".jar");
        if jar {
            assert(path@.subrange(n - 4, n as int) =~= ".jar"@);
        }
        if !jar && n >= 4 {
            assert(path@.subrange(n - 4, n as int) != ".jar"@) by {
                if path@.subrange(n - 4, n as int) == ".jar"@ {
                    assert(path@.subrange(n - 4, n as int)[0] == '.');
                    assert(path@.subrange(n - 4, n as int)[1] == 'j');
                    assert(path@.subrange(n - 4, n as int)[2] == 'a');
                    assert(path@.subrange(n - 4, n as int)[3] == 'r');
                }
            }
        }
    }
    if jar {
        ClassPath::Jar(path.to_owned())
    } else {
        ClassPath::Directory(path.to_owned())
    }
}

/// The archive or directory entry that holds a named class's bytes.
pub fn class_entry_name(class_name: &str) -> (r: String)
    ensures
        r@ == class_name@ + ".class"@,
{
    let mut s = class_name.to_owned();
    s.append(".class");
    s
}

} // verus!
