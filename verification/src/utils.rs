use vstd::prelude::*;

use crate::text::{chars_of, str_eq};
use vstd::string::StringExecFns;

verus! {

/// `p` joined onto `base` as Unix paths join (`Path::join`): an absolute `p`
/// replaces `base`; otherwise `p` is appended, after a `/` unless `base` is
/// empty or already ends in one.
pub open spec fn joined_path(base: Seq<char>, p: Seq<char>) -> Seq<char> {
    if p.len() > 0 && p[0] == '/' {
        p
    } else if base.len() == 0 || base.last() == '/' {
        base + p
    } else {
        base + "/"@ + p
    }
}

/// Joins the path `p` onto `base`.
pub fn join_path(base: &str, p: &str) -> (out: String)
    ensures
        out@ == joined_path(base@, p@),
{
    let pc = chars_of(p);
    let bc = chars_of(base);
    if pc.len() > 0 && pc[0] == '/' {
        return String::from_str(p);
    }
    let mut out = String::from_str(base);
    if !(bc.len() == 0 || bc[bc.len() - 1] == '/') {
        out.append("/");
    }
    out.append(p);
    out
}

/// The directories in which the crates, modules and user libraries of an
/// ArceOS tree are looked up.
pub struct Roots {
    pub arceos_root: String,
    pub crate_root: String,
    pub module_root: String,
    pub ulib_root: String,
}

impl Roots {
    /// The roots relative to the tool's own directory in the ArceOS tree:
    /// `../../` and its `crates/`, `modules/` and `ulib/` directories.
    pub fn new() -> (r: Roots)
        ensures
            r.arceos_root@ == "../../"@,
            r.crate_root@ == "../../crates/"@,
            r.module_root@ == "../../modules/"@,
            r.ulib_root@ == "../../ulib/"@,
    {
        Roots {
            arceos_root: String::from_str("../../"),
            crate_root: String::from_str("../../crates/"),
            module_root: String::from_str("../../modules/"),
            ulib_root: String::from_str("../../ulib/"),
        }
    }
}

/// Moves the ArceOS tree to `path`: the crate, module and user library
/// roots become its `crates`, `modules` and `ulib` subdirectories.
pub fn change_root(roots: &mut Roots, path: &String)
    ensures
        final(roots).arceos_root@ == path@,
        final(roots).crate_root@ == joined_path(path@, "crates"@),
        final(roots).module_root@ == joined_path(path@, "modules"@),
        final(roots).ulib_root@ == joined_path(path@, "ulib"@),
{
    roots.arceos_root = path.clone();
    roots.crate_root = join_path(path.as_str(), "crates");
    roots.module_root = join_path(path.as_str(), "modules");
    roots.ulib_root = join_path(path.as_str(), "ulib");
}

/// The root of the ArceOS tree.
pub fn get_workspace(roots: &Roots) -> (w: String)
    ensures
        w@ == roots.arceos_root@,
{
    roots.arceos_root.clone()
}

/// The entries found in the crate and module roots of the tree.
pub struct CrateIndex {
    pub crate_dirs: Vec<String>,
    pub module_dirs: Vec<String>,
}

/// Some string of `names` holds exactly the characters `name`.
pub open spec fn names_contain(names: Seq<String>, name: Seq<char>) -> bool {
    exists|i: int| 0 <= i < names.len() && #[trigger] names[i]@ == name
}

/// Whether some string of `names` equals `name`.
pub fn names_include(names: &Vec<String>, name: &String) -> (r: bool)
    ensures
        r == names_contain(names@, name@),
{
    let mut i: usize = 0;
    while i < names.len()
        invariant
            i <= names.len(),
            forall|j: int| 0 <= j < i ==> #[trigger] names@[j]@ != name@,
        decreases names.len() - i,
    {
        if str_eq(names[i].as_str(), name.as_str()) {
            return true;
        }
        i = i + 1;
    }
    false
}

/// `name` is the user library of the tree.
pub open spec fn is_ulib_name(name: Seq<char>) -> bool {
    name == "libax"@
}

/// `name` belongs to the tree: the user library, or an entry of the crate
/// root or of the module root.
pub open spec fn is_arceos_crate(index: &CrateIndex, name: Seq<char>) -> bool {
    ||| is_ulib_name(name)
    ||| names_contain(index.crate_dirs@, name)
    ||| names_contain(index.module_dirs@, name)
}

/// The directory of the tree's crate `name`, looked up in the user library
/// root, then the crate root, then the module root.
pub open spec fn arceos_crate_path(roots: &Roots, index: &CrateIndex, name: Seq<char>) -> Option<Seq<char>> {
    if is_ulib_name(name) {
        Some(joined_path(roots.ulib_root@, name))
    } else if names_contain(index.crate_dirs@, name) {
        Some(joined_path(roots.crate_root@, name))
    } else if names_contain(index.module_dirs@, name) {
        Some(joined_path(roots.module_root@, name))
    } else {
        None
    }
}

/// Whether `name` is an entry of the crate root.
pub fn check_crate_name(index: &CrateIndex, name: &String) -> (r: bool)
    ensures
        r == names_contain(index.crate_dirs@, name@),
{
    names_include(&index.crate_dirs, name)
}

/// Whether `name` is an entry of the module root.
pub fn check_module_name(index: &CrateIndex, name: &String) -> (r: bool)
    ensures
        r == names_contain(index.module_dirs@, name@),
{
    names_include(&index.module_dirs, name)
}

/// Whether `name` is the user library, `libax`.
pub fn check_ulib_name(name: &String) -> (r: bool)
    ensures
        r == is_ulib_name(name@),
{
    str_eq(name.as_str(), "libax")
}

/// The directory of the tree's crate `name`, if `name` belongs to the tree.
pub fn find_arceos_crate(roots: &Roots, index: &CrateIndex, name: &String) -> (r: Option<String>)
    ensures
        match r {
            Some(p) => arceos_crate_path(roots, index, name@) == Some(p@),
            None => arceos_crate_path(roots, index, name@) is None,
        },
        r is Some <==> is_arceos_crate(index, name@),
{
    if check_ulib_name(name) {
        Some(join_path(roots.ulib_root.as_str(), name.as_str()))
    } else if check_crate_name(index, name) {
        Some(join_path(roots.crate_root.as_str(), name.as_str()))
    } else if check_module_name(index, name) {
        Some(join_path(roots.module_root.as_str(), name.as_str()))
    } else {
        None
    }
}

} // verus!
