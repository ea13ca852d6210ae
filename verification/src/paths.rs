//! Path arithmetic on text: the directories a package is restored into, and
//! how a path divides at its last separator.

use crate::text::{chars_of, ends_with_chars, strip_prefix, without_prefix};
use vstd::prelude::*;

verus! {

/// The suffix that the name of a package carries.
pub open spec fn package_suffix() -> Seq<char> {
    ".unitypackage"@
}

/// What is appended to the base directory's name to name the scratch directory.
pub open spec fn scratch_suffix() -> Seq<char> {
    "_temp"@
}

/// The project root that relative paths inside a package start with.
pub open spec fn asset_root() -> Seq<char> {
    "Assets/"@
}

/// Whether `name` names a package: whether it ends with the package suffix.
pub open spec fn is_package_name(name: Seq<char>) -> bool {
    package_suffix().is_suffix_of(name)
}

/// The base output directory of the package `name`: the name without the
/// package suffix.
pub open spec fn base_dir_of(name: Seq<char>) -> Seq<char>
    recommends
        is_package_name(name),
{
    name.take(name.len() - package_suffix().len())
}

/// The scratch directory that goes with the base directory `base`.
pub open spec fn scratch_dir_of(base: Seq<char>) -> Seq<char> {
    base + scratch_suffix()
}

/// `rel` placed under the directory `base`. A separator is put between the
/// two unless `base` is empty or already ends with one.
pub open spec fn joined(base: Seq<char>, rel: Seq<char>) -> Seq<char> {
    if base.len() == 0 {
        rel
    } else if base.last() == '/' {
        base + rel
    } else {
        base + seq!['/'] + rel
    }
}

/// What precedes the last separator of `path`; empty where there is none.
pub open spec fn parent_of(path: Seq<char>) -> Seq<char> {
    match path.index_of_last('/') {
        Some(i) => path.take(i),
        None => Seq::empty(),
    }
}

/// What follows the last separator of `path`; all of `path` where there is none.
pub open spec fn final_component(path: Seq<char>) -> Seq<char> {
    match path.index_of_last('/') {
        Some(i) => path.skip(i + 1),
        None => path,
    }
}

/// Where the asset with the project-relative path `relative_path` goes under
/// `base`: the asset root is taken off the front once, if it is there, and the
/// rest is placed under `base`.
pub open spec fn destination_of(base: Seq<char>, relative_path: Seq<char>) -> Seq<char> {
    joined(base, without_prefix(relative_path, asset_root()))
}

/// A path with a separator is its parent, a separator and its final
/// component; one without is its final component alone. The final component
/// never holds a separator.
pub proof fn lemma_split_at_last_separator(path: Seq<char>)
    ensures
        !final_component(path).contains('/'),
        path.contains('/') ==> path == parent_of(path) + seq!['/'] + final_component(path),
        !path.contains('/') ==> parent_of(path).len() == 0 && final_component(path) == path,
{
    path.index_of_last_ensures('/');
    match path.index_of_last('/') {
        Some(i) => {
            let tail = path.skip(i + 1);
            assert forall|k: int| 0 <= k < tail.len() implies tail[k] != '/' by {
                assert(tail[k] == path[i + 1 + k]);
            }
            assert(path =~= path.take(i) + seq!['/'] + tail);
        },
        None => {},
    }
}

/// Two paths placed under the same directory coincide only if they are the
/// same path.
pub proof fn lemma_joined_tells_paths_apart(base: Seq<char>, a: Seq<char>, b: Seq<char>)
    requires
        joined(base, a) == joined(base, b),
    ensures
        a == b,
{
    if base.len() == 0 {
    } else if base.last() == '/' {
        assert(a =~= (base + a).skip(base.len() as int));
        assert(b =~= (base + b).skip(base.len() as int));
    } else {
        let lead = base + seq!['/'];
        assert(a =~= (lead + a).skip(lead.len() as int));
        assert(b =~= (lead + b).skip(lead.len() as int));
    }
}

/// The position of the last separator in `chars`, if there is one.
fn last_separator(chars: &Vec<char>) -> (r: Option<usize>)
    ensures
        match r {
            Some(i) => i < chars@.len() && chars@.index_of_last('/') == Some(i as int),
            None => chars@.index_of_last('/') is None,
        },
{
    let mut i: usize = chars.len();
    while i > 0
        invariant
            i <= chars.len(),
            forall|k: int| i <= k < chars@.len() ==> chars@[k] != '/',
        decreases i,
    {
        if chars[i - 1] == '/' {
            proof {
                chars@.index_of_last_ensures('/');
                let found = chars@.index_of_last('/');
                assert(chars@.contains('/'));
                assert(found is Some);
                assert(found->0 == i - 1);
            }
            return Some(i - 1);
        }
        i -= 1;
    }
    proof {
        chars@.index_of_last_ensures('/');
    }
    None
}

/// Whether `name` ends with the package suffix.
pub fn has_package_suffix(name: &str) -> (b: bool)
    ensures
        b == is_package_name(name@),
{
    let chars = chars_of(name);
    let tail = chars_of(".unitypackage");
    ends_with_chars(&chars, &tail)
}

/// The base output directory for the package `name`, or `None` where `name`
/// does not name a package.
pub fn base_dir_name(name: &str) -> (r: Option<String>)
    ensures
        r is Some <==> is_package_name(name@),
        r matches Some(base) ==> base@ == base_dir_of(name@),
{
    let chars = chars_of(name);
    let tail = chars_of(".unitypackage");
    if ends_with_chars(&chars, &tail) {
        Some(name.substring_char(0, chars.len() - tail.len()).to_owned())
    } else {
        None
    }
}

/// The scratch directory that goes with the base directory `base`.
pub fn scratch_dir_name(base: &str) -> (r: String)
    ensures
        r@ == scratch_dir_of(base@),
{
    base.to_owned().concat("_temp")
}

/// Places `rel` under the directory `base`.
pub fn join(base: &str, rel: &str) -> (r: String)
    ensures
        r@ == joined(base@, rel@),
{
    let chars = chars_of(base);
    let n: usize = chars.len();
    if n == 0 {
        rel.to_owned()
    } else if chars[n - 1] == '/' {
        base.to_owned().concat(rel)
    } else {
        proof {
            reveal_strlit("/");
            assert("/"@ =~= seq!['/']);
        }
        base.to_owned().concat("/").concat(rel)
    }
}

/// Divides `path` at its last separator into what precedes it and what
/// follows it.
pub fn split_last(path: &str) -> (r: (String, String))
    ensures
        r.0@ == parent_of(path@),
        r.1@ == final_component(path@),
{
    let chars = chars_of(path);
    let n: usize = chars.len();
    match last_separator(&chars) {
        Some(i) => {
            let parent = path.substring_char(0, i).to_owned();
            let last = path.substring_char(i + 1, n).to_owned();
            (parent, last)
        },
        None => (String::new(), path.to_owned()),
    }
}

/// The directory that holds `path`: what precedes its last separator.
pub fn parent(path: &str) -> (r: String)
    ensures
        r@ == parent_of(path@),
{
    let chars = chars_of(path);
    match last_separator(&chars) {
        Some(i) => path.substring_char(0, i).to_owned(),
        None => String::new(),
    }
}

/// Where the asset with the project-relative path `relative_path` goes under
/// the directory `base`.
pub fn destination(base: &str, relative_path: &str) -> (r: String)
    ensures
        r@ == destination_of(base@, relative_path@),
{
    let rest = strip_prefix(relative_path, "Assets/");
    join(base, rest.as_str())
}

} // verus!
