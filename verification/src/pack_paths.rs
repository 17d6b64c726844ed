//! Where the package manager keeps its files under the Jokolay directory,
//! with paths held as text.

use vstd::prelude::*;

verus! {

/// Directory of the package manager under the Jokolay directory.
pub const PACKAGE_MANAGER_DIRECTORY_NAME: &'static str = "marker_manager";
/// Directory of the imported packs under the package manager directory.
pub const PACKAGES_DIRECTORY_NAME: &'static str = "packs";
/// Working directory where a package is extracted before it is read.
pub const EXTRACT_DIRECTORY_NAME: &'static str = "_work";
/// The package that is always created and imported as an overwrite.
pub const EDITABLE_PACKAGE_NAME: &'static str = "editable";
/// What importing the editable package gives.
pub const LOCAL_EXPANDED_PACKAGE_NAME: &'static str = "_local_expanded";

/// A path component that is a plain name: not empty, with no separator and
/// no drive colon.
pub open spec fn plain_name(s: Seq<char>) -> bool {
    &&& s.len() > 0
    &&& forall|i: int| 0 <= i < s.len() ==> s[i] != '/' && s[i] != '\\' && s[i] != ':'
}

/// A base path without a drive, root-name or verbatim prefix: it holds no
/// `:` and does not start with `\`.
pub open spec fn simple_base(s: Seq<char>) -> bool {
    &&& forall|i: int| 0 <= i < s.len() ==> s[i] != ':'
    &&& s.len() > 0 ==> s[0] != '\\'
}

/// `out` is `base` with `part` adjoined: `part` alone when the base is
/// empty; right after the base when it ends with `/`; after the platform
/// separator (`/` or `\`) when it ends with neither; and when it ends with
/// `\`, right after it (where `\` separates) or after `/` (where it does
/// not).
pub open spec fn adjoined(out: Seq<char>, base: Seq<char>, part: Seq<char>) -> bool {
    if base.len() == 0 {
        out == part
    } else if base.last() == '/' {
        out == base + part
    } else if base.last() == '\\' {
        out == base + part || out == base + seq!['/'] + part
    } else {
        out == base + seq!['/'] + part || out == base + seq!['\\'] + part
    }
}

/// `out` is `base` with the two plain names adjoined one after the other.
pub open spec fn adjoined_twice(out: Seq<char>, base: Seq<char>, first: Seq<char>, second: Seq<char>) -> bool {
    exists|mid: Seq<char>| adjoined(mid, base, first) && #[trigger] adjoined(out, mid, second)
}

/// `Path::join` with a plain name: the name follows the base, after the
/// platform separator unless the base is empty or already ends with one.
/// Which separator is used depends on the platform, so the contract leaves
/// it open between `/` and `\`. Of a base with a prefix (a drive, a root
/// name, a verbatim path), which the platform may rewrite, nothing is said.
#[verifier::external_body]
fn join_path(base: &str, part: &str) -> (r: String)
    requires
        plain_name(part@),
    ensures
        simple_base(base@) ==> adjoined(r@, base@, part@),
{
    std::path::Path::new(base).join(part).to_string_lossy().into_owned()
}

/// Adjoining a plain name to a base without prefix gives a base without
/// prefix.
proof fn lemma_adjoined_simple(out: Seq<char>, base: Seq<char>, part: Seq<char>)
    requires
        simple_base(base),
        plain_name(part),
        adjoined(out, base, part),
    ensures
        simple_base(out),
{
    if base.len() == 0 {
    } else {
        assert(out[0] == base[0]);
        assert forall|i: int| 0 <= i < out.len() implies out[i] != ':' by {
            if i < base.len() {
                assert(out[i] == base[i]);
            } else if out.len() == base.len() + part.len() {
                assert(out[i] == part[i - base.len()]);
            } else if i > base.len() {
                assert(out[i] == part[i - base.len() - 1]);
            }
        }
    }
}

proof fn lemma_directory_names_are_plain()
    ensures
        plain_name(PACKAGE_MANAGER_DIRECTORY_NAME@),
        plain_name(PACKAGES_DIRECTORY_NAME@),
        plain_name(EXTRACT_DIRECTORY_NAME@),
        plain_name(EDITABLE_PACKAGE_NAME@),
{
    reveal_strlit("marker_manager");
    reveal_strlit("packs");
    reveal_strlit("_work");
    reveal_strlit("editable");
}

/// The editable package under the Jokolay directory:
/// `marker_manager/editable`.
pub fn jokolay_to_editable_path(jokolay_path: &str) -> (r: String)
    ensures
        simple_base(jokolay_path@) ==> adjoined_twice(r@, jokolay_path@, PACKAGE_MANAGER_DIRECTORY_NAME@, EDITABLE_PACKAGE_NAME@),
{
    proof {
        lemma_directory_names_are_plain();
    }
    let manager = join_path(jokolay_path, PACKAGE_MANAGER_DIRECTORY_NAME);
    let r = join_path(&manager, EDITABLE_PACKAGE_NAME);
    proof {
        if simple_base(jokolay_path@) {
            lemma_adjoined_simple(manager@, jokolay_path@, PACKAGE_MANAGER_DIRECTORY_NAME@);
            assert(adjoined(r@, manager@, EDITABLE_PACKAGE_NAME@));
        }
    }
    r
}

/// The extraction directory under the Jokolay directory:
/// `marker_manager/_work`.
pub fn jokolay_to_extract_path(jokolay_path: &str) -> (r: String)
    ensures
        simple_base(jokolay_path@) ==> adjoined_twice(r@, jokolay_path@, PACKAGE_MANAGER_DIRECTORY_NAME@, EXTRACT_DIRECTORY_NAME@),
{
    proof {
        lemma_directory_names_are_plain();
    }
    let manager = join_path(jokolay_path, PACKAGE_MANAGER_DIRECTORY_NAME);
    let r = join_path(&manager, EXTRACT_DIRECTORY_NAME);
    proof {
        if simple_base(jokolay_path@) {
            lemma_adjoined_simple(manager@, jokolay_path@, PACKAGE_MANAGER_DIRECTORY_NAME@);
            assert(adjoined(r@, manager@, EXTRACT_DIRECTORY_NAME@));
        }
    }
    r
}

/// The directory of the imported packs under the Jokolay directory:
/// `marker_manager/packs`.
pub fn jokolay_to_marker_path(jokolay_path: &str) -> (r: String)
    ensures
        simple_base(jokolay_path@) ==> adjoined_twice(r@, jokolay_path@, PACKAGE_MANAGER_DIRECTORY_NAME@, PACKAGES_DIRECTORY_NAME@),
{
    proof {
        lemma_directory_names_are_plain();
    }
    let manager = join_path(jokolay_path, PACKAGE_MANAGER_DIRECTORY_NAME);
    let r = join_path(&manager, PACKAGES_DIRECTORY_NAME);
    proof {
        if simple_base(jokolay_path@) {
            lemma_adjoined_simple(manager@, jokolay_path@, PACKAGE_MANAGER_DIRECTORY_NAME@);
            assert(adjoined(r@, manager@, PACKAGES_DIRECTORY_NAME@));
        }
    }
    r
}

/// The paths the package back end shares, and whether the choice of
/// categories changed since the displayed elements were last computed.
pub struct PackageBackSharedState {
    pub choice_of_category_changed: bool,
    pub root_path: String,
    pub editable_path: String,
    pub extract_path: String,
}

impl PackageBackSharedState {
    /// The state of a package back end rooted at the Jokolay directory:
    /// nothing changed yet.
    pub fn new(root_path: &str) -> (s: Self)
        ensures
            !s.choice_of_category_changed,
            s.root_path@ == root_path@,
            simple_base(root_path@) ==> adjoined_twice(s.editable_path@, root_path@, PACKAGE_MANAGER_DIRECTORY_NAME@, EDITABLE_PACKAGE_NAME@),
            simple_base(root_path@) ==> adjoined_twice(s.extract_path@, root_path@, PACKAGE_MANAGER_DIRECTORY_NAME@, EXTRACT_DIRECTORY_NAME@),
    {
        PackageBackSharedState {
            choice_of_category_changed: false,
            root_path: root_path.to_owned(),
            editable_path: jokolay_to_editable_path(root_path),
            extract_path: jokolay_to_extract_path(root_path),
        }
    }
}

} // verus!
