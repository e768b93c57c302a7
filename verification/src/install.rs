//! What installing a part decides and names, apart from fetching artifacts
//! and touching the disk: whether an install can start, where its files go,
//! and what the window reports.

use vstd::prelude::*;
use crate::text::{chars_of, push_range, push_str, string_from_chars, trim, trimmed_range};

verus! {

/// Why an install cannot start.
#[derive(Debug, PartialEq, Eq, Structural)]
pub enum InstallBlocked {
    /// No search result is selected.
    NoSelection,
    /// The project directory is empty (or only whitespace).
    NoProjectDir,
}

/// The status line for a blocked install.
pub open spec fn blocked_status(b: InstallBlocked) -> Seq<char> {
    match b {
        InstallBlocked::NoSelection => "Select a search result first."@,
        InstallBlocked::NoProjectDir => "Set a project directory first."@,
    }
}

impl InstallBlocked {
    /// The status line for this reason.
    pub fn message(&self) -> (r: String)
        ensures
            r@ == blocked_status(*self),
    {
        match self {
            InstallBlocked::NoSelection => String::from_str("Select a search result first."),
            InstallBlocked::NoProjectDir => String::from_str("Set a project directory first."),
        }
    }
}

/// An install that can start.
pub struct InstallRequest {
    /// Index of the selected search result.
    pub index: usize,
    /// Silicon revision, trimmed; `None` when the field is blank.
    pub revision: Option<String>,
    /// Project directory, trimmed.
    pub project_dir: String,
}

/// Decides whether an install can start from the window's fields: a
/// result must be selected, then the project directory must be non-blank.
/// Revision and directory are taken with surrounding whitespace removed; a
/// blank revision means none.
pub fn install_request(selected: Option<usize>, revision: &str, project_dir: &str) -> (r: Result<
    InstallRequest,
    InstallBlocked,
>)
    ensures
        match selected {
            None => r == Err::<InstallRequest, InstallBlocked>(InstallBlocked::NoSelection),
            Some(index) => if trim(project_dir@).len() == 0 {
                r == Err::<InstallRequest, InstallBlocked>(InstallBlocked::NoProjectDir)
            } else {
                &&& r is Ok
                &&& r->Ok_0.index == index
                &&& r->Ok_0.project_dir@ == trim(project_dir@)
                &&& if trim(revision@).len() == 0 {
                    r->Ok_0.revision is None
                } else {
                    r->Ok_0.revision matches Some(v) && v@ == trim(revision@)
                }
            },
        },
{
    let index = match selected {
        None => return Err(InstallBlocked::NoSelection),
        Some(i) => i,
    };
    let rev = chars_of(revision);
    let (rev_from, rev_to) = trimmed_range(&rev);
    let revision = if rev_from == rev_to {
        None
    } else {
        let mut out: Vec<char> = Vec::new();
        push_range(&mut out, &rev, rev_from, rev_to);
        Some(string_from_chars(&out))
    };
    let dir = chars_of(project_dir);
    let (dir_from, dir_to) = trimmed_range(&dir);
    if dir_from == dir_to {
        return Err(InstallBlocked::NoProjectDir);
    }
    let mut out: Vec<char> = Vec::new();
    push_range(&mut out, &dir, dir_from, dir_to);
    Ok(InstallRequest { index, revision, project_dir: string_from_chars(&out) })
}

/// Project-relative path of a part's STEP model, as KiCad resolves it.
pub open spec fn step_model_path_text(mpn: Seq<char>) -> Seq<char> {
    "${KIPRJMOD}/openparts_3d/"@ + mpn + ".step"@
}

/// The path a footprint's 3D model points at for part `mpn`:
/// `${KIPRJMOD}/openparts_3d/MPN.step`.
pub fn step_model_path(mpn: &str) -> (r: String)
    ensures
        r@ == step_model_path_text(mpn@),
{
    let mut out: Vec<char> = Vec::new();
    push_str(&mut out, "${KIPRJMOD}/openparts_3d/");
    push_str(&mut out, mpn);
    push_str(&mut out, ".step");
    assert(out@ =~= step_model_path_text(mpn@));
    string_from_chars(&out)
}

/// `name` followed by `suffix`.
fn with_suffix(name: &str, suffix: &str) -> (r: String)
    ensures
        r@ == name@ + suffix@,
{
    let mut out: Vec<char> = Vec::new();
    push_str(&mut out, name);
    push_str(&mut out, suffix);
    assert(out@ =~= name@ + suffix@);
    string_from_chars(&out)
}

/// File name of a part's STEP model in `openparts_3d/`.
pub fn step_file_name(mpn: &str) -> (r: String)
    ensures
        r@ == mpn@ + ".step"@,
{
    with_suffix(mpn, ".step")
}

/// File name of a part's footprint in `openparts.pretty/`.
pub fn footprint_file_name(mpn: &str) -> (r: String)
    ensures
        r@ == mpn@ + ".kicad_mod"@,
{
    with_suffix(mpn, ".kicad_mod")
}

/// The status line after a successful install.
pub open spec fn installed_status(
    mpn: Seq<char>,
    project_dir: Seq<char>,
    symbol_hash: Seq<char>,
    footprint_hash: Seq<char>,
    step_hash: Seq<char>,
) -> Seq<char> {
    "Installed "@ + mpn + " into "@ + project_dir + " (symbol hash sha256:"@ + symbol_hash
        + ", footprint hash sha256:"@ + footprint_hash + ", step hash sha256:"@ + step_hash + ")"@
}

/// Reports a successful install, naming the content hash of each
/// downloaded artifact.
pub fn install_message(
    mpn: &str,
    project_dir: &str,
    symbol_hash: &str,
    footprint_hash: &str,
    step_hash: &str,
) -> (r: String)
    ensures
        r@ == installed_status(mpn@, project_dir@, symbol_hash@, footprint_hash@, step_hash@),
{
    let mut out: Vec<char> = Vec::new();
    push_str(&mut out, "Installed ");
    push_str(&mut out, mpn);
    push_str(&mut out, " into ");
    push_str(&mut out, project_dir);
    push_str(&mut out, " (symbol hash sha256:");
    push_str(&mut out, symbol_hash);
    push_str(&mut out, ", footprint hash sha256:");
    push_str(&mut out, footprint_hash);
    push_str(&mut out, ", step hash sha256:");
    push_str(&mut out, step_hash);
    push_str(&mut out, ")");
    assert(out@ =~= installed_status(mpn@, project_dir@, symbol_hash@, footprint_hash@, step_hash@));
    string_from_chars(&out)
}

/// The status line after a failed install.
pub fn install_failed_message(error: &str) -> (r: String)
    ensures
        r@ == "Install failed: "@ + error@,
{
    with_suffix("Install failed: ", error)
}

/// Registry the window talks to until the user changes the URL.
pub fn default_registry_url() -> (r: String)
    ensures
        r@ == "http://localhost:8080"@,
{
    String::from_str("http://localhost:8080")
}

/// Directory, under the project, that holds the STEP models.
pub fn step_dir_name() -> (r: String)
    ensures
        r@ == "openparts_3d"@,
{
    String::from_str("openparts_3d")
}

/// Directory, under the project, of the footprint library.
pub fn footprint_lib_dir_name() -> (r: String)
    ensures
        r@ == "openparts.pretty"@,
{
    String::from_str("openparts.pretty")
}

/// File, under the project, of the combined symbol library.
pub fn symbol_lib_file_name() -> (r: String)
    ensures
        r@ == "openparts.kicad_sym"@,
{
    String::from_str("openparts.kicad_sym")
}

/// How one of the project's libraries is registered: the table file under
/// the project, the table's tag, and the row's name, type and URI.
pub struct LibTableEntry {
    pub file_name: String,
    pub table_tag: String,
    pub lib_name: String,
    pub lib_type: String,
    pub uri: String,
}

/// The registration of the combined symbol library in `sym-lib-table`.
pub fn symbol_lib_table_entry() -> (r: LibTableEntry)
    ensures
        r.file_name@ == "sym-lib-table"@,
        r.table_tag@ == "sym_lib_table"@,
        r.lib_name@ == "openparts"@,
        r.lib_type@ == "KiCad"@,
        r.uri@ == "${KIPRJMOD}/openparts.kicad_sym"@,
{
    LibTableEntry {
        file_name: String::from_str("sym-lib-table"),
        table_tag: String::from_str("sym_lib_table"),
        lib_name: String::from_str("openparts"),
        lib_type: String::from_str("KiCad"),
        uri: String::from_str("${KIPRJMOD}/openparts.kicad_sym"),
    }
}

/// The registration of the footprint library in `fp-lib-table`.
pub fn footprint_lib_table_entry() -> (r: LibTableEntry)
    ensures
        r.file_name@ == "fp-lib-table"@,
        r.table_tag@ == "fp_lib_table"@,
        r.lib_name@ == "openparts"@,
        r.lib_type@ == "KiCad"@,
        r.uri@ == "${KIPRJMOD}/openparts.pretty"@,
{
    LibTableEntry {
        file_name: String::from_str("fp-lib-table"),
        table_tag: String::from_str("fp_lib_table"),
        lib_name: String::from_str("openparts"),
        lib_type: String::from_str("KiCad"),
        uri: String::from_str("${KIPRJMOD}/openparts.pretty"),
    }
}

} // verus!
