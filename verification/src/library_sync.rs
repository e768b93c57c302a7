//! Editing of KiCad library files: `.kicad_sym` symbol libraries,
//! `.kicad_mod` footprints and the `sym-lib-table` / `fp-lib-table` files.
//!
//! These files are S-expression text. Every file read here was produced by
//! the OpenParts renderer, so a balanced-parenthesis scan that starts at a
//! marker finds the block the marker begins; no general S-expression
//! parser is involved.

use vstd::prelude::*;
use crate::text::{
    balanced_block, find_balanced_block, block_end, chars_of, closes_at, contains, find_exec,
    insert_before_close, insert_before_close_exec, insertion_point, lemma_balanced_block,
    lemma_block_end_is, lemma_block_end_shift, lemma_closes_shift, lemma_find, lemma_find_is,
    lemma_depth_concat, lemma_insertion_point, lemma_occurs_contains, lemma_paren_free,
    lemma_never_below_prefix, lemma_never_below_shift, lemma_open_alone, lemma_close_prefixes,
    lemma_splice_never_below, lemma_trim_end_prefix, lemma_insertion_point_is, last_close_in,
    trailing_space_from, lemma_well_nested_concat, lemma_wrap,
    never_below_zero, occurs_at, paren_depth,
    paren_free, push_range, push_str, string_from_chars, trim_end, trimmed_len, well_nested, wrap,
};

verus! {

/// Errors of the library-file operations.
#[derive(Debug)]
pub enum SyncError {
    /// No balanced block beginning with the given marker was found.
    BlockNotFound(String),
}

/// The text describing an error.
pub open spec fn sync_error_message(e: SyncError) -> Seq<char> {
    match e {
        SyncError::BlockNotFound(m) => "could not find a balanced `"@ + m@ + "` block in the input"@,
    }
}

impl SyncError {
    /// The text describing this error.
    pub fn message(&self) -> (r: String)
        ensures
            r@ == sync_error_message(*self),
    {
        match self {
            SyncError::BlockNotFound(marker) => {
                let mut out: Vec<char> = Vec::new();
                push_str(&mut out, "could not find a balanced `");
                push_str(&mut out, marker.as_str());
                push_str(&mut out, "` block in the input");
                let r = string_from_chars(&out);
                assert(r@ =~= sync_error_message(*self));
                r
            },
        }
    }
}

/// The text of an optional file.
pub open spec fn text_of(o: Option<&str>) -> Option<Seq<char>> {
    match o {
        Some(t) => Some(t@),
        None => None,
    }
}

// ---------------------------------------------------------------------------
// Symbol libraries
// ---------------------------------------------------------------------------

/// The text that starts the symbol block of part `mpn`: `(symbol "MPN"`.
pub open spec fn symbol_marker(mpn: Seq<char>) -> Seq<char> {
    "(symbol \""@ + mpn + "\""@
}

/// The symbol block of `mpn` in a fetched symbol library: the first
/// balanced block that begins with the symbol marker.
pub open spec fn extracted_block(text: Seq<char>, mpn: Seq<char>) -> Option<Seq<char>> {
    match balanced_block(text, symbol_marker(mpn)) {
        Some((start, end)) => Some(text.subrange(start, end)),
        None => None,
    }
}

/// Start of a new combined symbol library, up to where its symbol goes.
pub open spec fn new_library_head() -> Seq<char> {
    "(kicad_symbol_lib\n  (version 20211014)\n  (generator openparts-kicad-plugin)\n  "@
}

/// End of a new combined symbol library, after its symbol.
pub open spec fn new_library_tail() -> Seq<char> {
    "\n)\n"@
}

/// The combined library after merging `block` for `mpn` into `existing`:
/// an existing block of the same symbol is replaced in place; otherwise
/// the block goes, indented, before the library's closing parenthesis; a
/// missing library is created around the block.
pub open spec fn merged_library(existing: Option<Seq<char>>, mpn: Seq<char>, block: Seq<char>) -> Seq<char> {
    match existing {
        Some(t) => match balanced_block(t, symbol_marker(mpn)) {
            Some((start, end)) => t.subrange(0, start) + block + t.subrange(end, t.len() as int),
            None => insert_before_close(trim_end(t), "  "@ + block + "\n"@),
        },
        None => new_library_head() + block + new_library_tail(),
    }
}

fn symbol_marker_chars(mpn: &str) -> (m: Vec<char>)
    ensures
        m@ == symbol_marker(mpn@),
{
    let mut m: Vec<char> = Vec::new();
    push_str(&mut m, "(symbol \"");
    push_str(&mut m, mpn);
    push_str(&mut m, "\"");
    assert(m@ =~= symbol_marker(mpn@));
    m
}

/// Extracts the `(symbol "MPN" ...)` block from a whole single-symbol
/// `.kicad_sym` library as the registry serves it.
pub fn extract_symbol_block(fetched_symbol_lib_text: &str, mpn: &str) -> (r: Result<String, SyncError>)
    ensures
        match extracted_block(fetched_symbol_lib_text@, mpn@) {
            Some(b) => r matches Ok(block) && block@ == b,
            None => r matches Err(SyncError::BlockNotFound(m)) && m@ == symbol_marker(mpn@),
        },
{
    let text = chars_of(fetched_symbol_lib_text);
    let marker = symbol_marker_chars(mpn);
    proof {
        lemma_balanced_block(text@, marker@);
    }
    match find_balanced_block(&text, &marker) {
        Some((start, end)) => {
            let mut out: Vec<char> = Vec::new();
            push_range(&mut out, &text, start, end);
            assert(out@ =~= text@.subrange(start as int, end as int));
            Ok(string_from_chars(&out))
        },
        None => Err(SyncError::BlockNotFound(string_from_chars(&marker))),
    }
}

/// Merges `symbol_block` (as `extract_symbol_block` gives it) into the
/// project's combined `openparts.kicad_sym`, or creates that library when
/// `existing` is `None`. A symbol of the same name is replaced in place.
pub fn merge_symbol_library(existing: Option<&str>, mpn: &str, symbol_block: &str) -> (r: String)
    ensures
        r@ == merged_library(text_of(existing), mpn@, symbol_block@),
{
    let block = chars_of(symbol_block);
    match existing {
        Some(existing_text) => {
            let text = chars_of(existing_text);
            let marker = symbol_marker_chars(mpn);
            proof {
                lemma_balanced_block(text@, marker@);
            }
            match find_balanced_block(&text, &marker) {
                Some((start, end)) => {
                    let mut out: Vec<char> = Vec::new();
                    push_range(&mut out, &text, 0, start);
                    push_range(&mut out, &block, 0, block.len());
                    push_range(&mut out, &text, end, text.len());
                    assert(block@.subrange(0, block@.len() as int) =~= block@);
                    assert(out@ =~= merged_library(text_of(existing), mpn@, symbol_block@));
                    string_from_chars(&out)
                },
                None => {
                    let mut piece: Vec<char> = Vec::new();
                    push_str(&mut piece, "  ");
                    push_str(&mut piece, symbol_block);
                    push_str(&mut piece, "\n");
                    assert(piece@ =~= "  "@ + symbol_block@ + "\n"@);
                    let out = insert_before_close_exec(&text, &piece);
                    string_from_chars(&out)
                },
            }
        },
        None => {
            let mut out: Vec<char> = Vec::new();
            push_str(&mut out, "(kicad_symbol_lib\n  (version 20211014)\n  (generator openparts-kicad-plugin)\n  ");
            push_str(&mut out, symbol_block);
            push_str(&mut out, "\n)\n");
            assert(out@ =~= merged_library(text_of(existing), mpn@, symbol_block@));
            string_from_chars(&out)
        },
    }
}

// ---------------------------------------------------------------------------
// Footprints
// ---------------------------------------------------------------------------

/// The text that starts a footprint's 3D-model block.
pub open spec fn model_marker() -> Seq<char> {
    "(model "@
}

/// The 3D-model block that points a footprint at the STEP file `path`.
pub open spec fn model_block(path: Seq<char>) -> Seq<char> {
    "  (model \""@ + path
        + "\"\n    (offset (xyz 0 0 0))\n    (scale (xyz 1 1 1))\n    (rotate (xyz 0 0 0))\n  )\n"@
}

/// The footprint after pointing its 3D model at `path`: its first
/// balanced `(model ` block is replaced by the new block (without its
/// trailing newline); a footprint without one gets the new block before
/// its closing parenthesis.
pub open spec fn patched_footprint(footprint: Seq<char>, path: Seq<char>) -> Seq<char> {
    match balanced_block(footprint, model_marker()) {
        Some((start, end)) => footprint.subrange(0, start) + trim_end(model_block(path))
            + footprint.subrange(end, footprint.len() as int),
        None => insert_before_close(trim_end(footprint), model_block(path)),
    }
}

/// Points the footprint's 3D model at the STEP file `step_relative_path`,
/// replacing a `(model ...)` block the footprint already has.
pub fn patch_footprint_3d_model(footprint_text: &str, step_relative_path: &str) -> (r: String)
    ensures
        r@ == patched_footprint(footprint_text@, step_relative_path@),
{
    let mut model: Vec<char> = Vec::new();
    push_str(&mut model, "  (model \"");
    push_str(&mut model, step_relative_path);
    push_str(
        &mut model,
        "\"\n    (offset (xyz 0 0 0))\n    (scale (xyz 1 1 1))\n    (rotate (xyz 0 0 0))\n  )\n",
    );
    assert(model@ =~= model_block(step_relative_path@));
    let text = chars_of(footprint_text);
    let mut marker: Vec<char> = Vec::new();
    push_str(&mut marker, "(model ");
    assert(marker@ =~= model_marker());
    proof {
        lemma_balanced_block(text@, marker@);
    }
    match find_balanced_block(&text, &marker) {
        Some((start, end)) => {
            let model_len = trimmed_len(&model);
            let mut out: Vec<char> = Vec::new();
            push_range(&mut out, &text, 0, start);
            push_range(&mut out, &model, 0, model_len);
            push_range(&mut out, &text, end, text.len());
            assert(out@ =~= patched_footprint(footprint_text@, step_relative_path@));
            string_from_chars(&out)
        },
        None => {
            let out = insert_before_close_exec(&text, &model);
            string_from_chars(&out)
        },
    }
}

// ---------------------------------------------------------------------------
// Library tables
// ---------------------------------------------------------------------------

/// The text by which a table row of library `lib_name` is recognised.
pub open spec fn name_marker(lib_name: Seq<char>) -> Seq<char> {
    "(name \""@ + lib_name + "\")"@
}

/// One `(lib ...)` row of a library table, indented, with its newline.
pub open spec fn lib_table_row(lib_name: Seq<char>, lib_type: Seq<char>, uri: Seq<char>) -> Seq<char> {
    "  (lib (name \""@ + lib_name + "\")(type \""@ + lib_type + "\")(uri \""@ + uri
        + "\")(options \"\")(descr \"\"))\n"@
}

/// The table after registering library `lib_name`: a table that already
/// names it is left as it is; otherwise the row goes before the table's
/// closing parenthesis; a missing table is created with `table_tag`.
pub open spec fn table_with_row(
    existing: Option<Seq<char>>,
    table_tag: Seq<char>,
    lib_name: Seq<char>,
    lib_type: Seq<char>,
    uri: Seq<char>,
) -> Seq<char> {
    match existing {
        Some(t) => if contains(t, name_marker(lib_name)) {
            t
        } else {
            insert_before_close(trim_end(t), lib_table_row(lib_name, lib_type, uri))
        },
        None => "("@ + table_tag + "\n"@ + lib_table_row(lib_name, lib_type, uri) + ")\n"@,
    }
}

fn lib_table_row_chars(lib_name: &str, lib_type: &str, uri: &str) -> (r: Vec<char>)
    ensures
        r@ == lib_table_row(lib_name@, lib_type@, uri@),
{
    let mut row: Vec<char> = Vec::new();
    push_str(&mut row, "  (lib (name \"");
    push_str(&mut row, lib_name);
    push_str(&mut row, "\")(type \"");
    push_str(&mut row, lib_type);
    push_str(&mut row, "\")(uri \"");
    push_str(&mut row, uri);
    push_str(&mut row, "\")(options \"\")(descr \"\"))\n");
    assert(row@ =~= lib_table_row(lib_name@, lib_type@, uri@));
    row
}

/// Adds a `(lib (name "...") ...)` row to a `sym-lib-table` or
/// `fp-lib-table` (both have the same format), or creates the table when
/// `existing` is `None`. A table that already has a row named `lib_name`
/// is returned unchanged.
pub fn add_lib_table_row(
    existing: Option<&str>,
    table_tag: &str,
    lib_name: &str,
    lib_type: &str,
    uri: &str,
) -> (r: String)
    ensures
        r@ == table_with_row(text_of(existing), table_tag@, lib_name@, lib_type@, uri@),
{
    let row = lib_table_row_chars(lib_name, lib_type, uri);
    match existing {
        Some(existing_text) => {
            let text = chars_of(existing_text);
            let mut name: Vec<char> = Vec::new();
            push_str(&mut name, "(name \"");
            push_str(&mut name, lib_name);
            push_str(&mut name, "\")");
            assert(name@ =~= name_marker(lib_name@));
            if find_exec(&text, &name).is_some() {
                return string_from_chars(&text);
            }
            let out = insert_before_close_exec(&text, &row);
            string_from_chars(&out)
        },
        None => {
            let mut out: Vec<char> = Vec::new();
            push_str(&mut out, "(");
            push_str(&mut out, table_tag);
            push_str(&mut out, "\n");
            push_range(&mut out, &row, 0, row.len());
            push_str(&mut out, ")\n");
            assert(row@.subrange(0, row@.len() as int) =~= row@);
            assert(out@ =~= table_with_row(text_of(existing), table_tag@, lib_name@, lib_type@, uri@));
            string_from_chars(&out)
        },
    }
}

// ---------------------------------------------------------------------------
// Laws
// ---------------------------------------------------------------------------

/// `b` is a symbol block of part `mpn`: it begins with the part's marker
/// and the block that begins there closes exactly at the end of `b`.
pub open spec fn is_symbol_block(b: Seq<char>, mpn: Seq<char>) -> bool {
    &&& occurs_at(b, symbol_marker(mpn), 0)
    &&& block_end(b, 0) == Some(b.len() as int)
}

/// Nowhere in the symbol marker of `mpn` do two spaces come right before a
/// repeat of the marker's beginning that runs to its end. (Were there such
/// a place, the marker could match across the two spaces of indentation in
/// front of an inserted block, ahead of the block itself.)
pub open spec fn no_spaced_repeat(mpn: Seq<char>) -> bool {
    let m = symbol_marker(mpn);
    forall|d: int|
        1 <= d && d + 2 < m.len() && #[trigger] m[d] == ' ' && m[d + 1] == ' ' ==> m.subrange(
            d + 2,
            m.len() as int,
        ) != m.subrange(0, m.len() - d - 2)
}

proof fn lemma_symbol_marker(mpn: Seq<char>)
    ensures
        symbol_marker(mpn).len() == mpn.len() + 10,
        symbol_marker(mpn)[0] == '(',
        symbol_marker(mpn)[1] == 's',
        symbol_marker(mpn).last() == '"',
        never_below_zero(mpn) ==> forall|l: int|
            1 <= l <= symbol_marker(mpn).len() && #[trigger] symbol_marker(mpn)[l - 1] == ')'
                ==> paren_depth(symbol_marker(mpn).subrange(0, l)) >= 1,
{
    reveal_strlit("(symbol \"");
    reveal_strlit("\"");
    reveal_strlit("symbol \"");
    let m = symbol_marker(mpn);
    let a = "(symbol \""@;
    if never_below_zero(mpn) {
        assert(a =~= seq!['('] + "symbol \""@);
        crate::text::lemma_depth_single('(');
        lemma_paren_free("symbol \""@);
        lemma_depth_concat(seq!['('], "symbol \""@);
        assert forall|l: int|
            1 <= l <= m.len() && #[trigger] m[l - 1] == ')' implies paren_depth(m.subrange(0, l))
            >= 1 by {
            assert(9 <= l - 1 < 9 + mpn.len());
            assert(m.subrange(0, l) =~= a + mpn.subrange(0, l - 9));
            lemma_depth_concat(a, mpn.subrange(0, l - 9));
        }
    }
}

/// What `extract_symbol_block` returns is balanced and closes exactly at
/// its end; for a part number in which no prefix has more `)` than `(` it
/// is a symbol block of that part.
pub proof fn law_extracted_block_is_balanced(text: Seq<char>, mpn: Seq<char>)
    ensures
        match extracted_block(text, mpn) {
            Some(b) => {
                &&& block_end(b, 0) == Some(b.len() as int)
                &&& paren_depth(b) == 0
                &&& never_below_zero(mpn) ==> is_symbol_block(b, mpn)
            },
            None => true,
        },
{
    let m = symbol_marker(mpn);
    lemma_balanced_block(text, m);
    if let Some((start, end)) = balanced_block(text, m) {
        let b = text.subrange(start, end);
        assert(b.subrange(0, b.len() as int) =~= b);
        lemma_closes_shift(text, b, start, b.len() as int);
        assert forall|j: int| 0 < j < b.len() implies !closes_at(b, 0, j) by {
            lemma_closes_shift(text, b, start, j);
            crate::text::lemma_block_end(text, start);
        }
        lemma_block_end_is(b, 0, b.len() as int);
        if never_below_zero(mpn) {
            lemma_symbol_marker(mpn);
            if end < start + m.len() {
                let l = end - start;
                assert(text.subrange(start, start + m.len())[l - 1] == text[end - 1]);
                assert(m[l - 1] == ')');
                assert(text.subrange(start, end) =~= m.subrange(0, l));
            }
            assert(b.subrange(0, m.len() as int) =~= text.subrange(start, start + m.len()));
        }
    }
}

/// A symbol block copied at `k` into `x`, with no earlier occurrence of its
/// marker, is the block that a merge finds and replaces.
proof fn lemma_found_again(x: Seq<char>, mpn: Seq<char>, b: Seq<char>, k: int)
    requires
        is_symbol_block(b, mpn),
        0 <= k,
        k + b.len() <= x.len(),
        x.subrange(k, k + b.len()) == b,
        forall|j: int| 0 <= j < k ==> !occurs_at(x, symbol_marker(mpn), j),
    ensures
        merged_library(Some(x), mpn, b) == x,
{
    let m = symbol_marker(mpn);
    assert(x.subrange(k, k + m.len()) =~= b.subrange(0, m.len() as int));
    lemma_find_is(x, m, k);
    lemma_block_end_shift(x, b, k);
    assert(x.subrange(0, k) + b + x.subrange(k + b.len(), x.len() as int) =~= x);
}

proof fn lemma_library_head()
    ensures
        forall|j: int|
            0 <= j < new_library_head().len() - 1 ==> !(#[trigger] new_library_head()[j] == '('
                && new_library_head()[j + 1] == 's'),
        new_library_head().len() > 0,
        new_library_head().last() == ' ',
{
    reveal_strlit("(kicad_symbol_lib\n  (version 20211014)\n  (generator openparts-kicad-plugin)\n  ");
}

proof fn lemma_merge_again_new(mpn: Seq<char>, block: Seq<char>)
    requires
        is_symbol_block(block, mpn),
    ensures
        merged_library(Some(merged_library(None, mpn, block)), mpn, block) == merged_library(
            None,
            mpn,
            block,
        ),
{
    let m = symbol_marker(mpn);
    let x = merged_library(None, mpn, block);
    let h = new_library_head();
    lemma_symbol_marker(mpn);
    lemma_library_head();
    assert(x.subrange(h.len() as int, (h.len() + block.len()) as int) =~= block);
    assert forall|j: int| 0 <= j < h.len() implies !occurs_at(x, m, j) by {
        if occurs_at(x, m, j) {
            assert(x.subrange(j, j + m.len())[0] == m[0]);
            assert(x.subrange(j, j + m.len())[1] == m[1]);
            assert(x[j] == h[j]);
            if j < h.len() - 1 {
                assert(x[j + 1] == h[j + 1]);
            }
        }
    }
    lemma_found_again(x, mpn, block, h.len() as int);
}

proof fn lemma_merge_again_replace(t: Seq<char>, mpn: Seq<char>, block: Seq<char>)
    requires
        is_symbol_block(block, mpn),
        balanced_block(t, symbol_marker(mpn)) is Some,
    ensures
        merged_library(Some(merged_library(Some(t), mpn, block)), mpn, block) == merged_library(
            Some(t),
            mpn,
            block,
        ),
{
    let m = symbol_marker(mpn);
    let x = merged_library(Some(t), mpn, block);
    lemma_balanced_block(t, m);
    lemma_find(t, m);
    let (start, end) = balanced_block(t, m).unwrap();
    assert(x == t.subrange(0, start) + block + t.subrange(end, t.len() as int));
    assert(x.subrange(start, start + block.len()) =~= block);
    assert(block.subrange(0, m.len() as int) == m);
    assert(t.subrange(start, start + m.len()) == m);
    assert forall|j: int| 0 <= j < start implies !occurs_at(x, m, j) by {
        if occurs_at(x, m, j) {
            assert forall|i: int| 0 <= i < m.len() implies #[trigger] x.subrange(
                j,
                j + m.len(),
            )[i] == t.subrange(j, j + m.len())[i] by {
                if j + i >= start {
                    assert(x[j + i] == block[j + i - start]);
                    assert(block.subrange(0, m.len() as int)[j + i - start] == m[j + i - start]);
                    assert(t.subrange(start, start + m.len())[j + i - start] == m[j + i - start]);
                } else {
                    assert(x[j + i] == t[j + i]);
                }
            }
            assert(t.subrange(j, j + m.len()) =~= x.subrange(j, j + m.len()));
            assert(occurs_at(t, m, j));
        }
    }
    lemma_found_again(x, mpn, block, start);
}

proof fn lemma_merge_again_insert(t: Seq<char>, mpn: Seq<char>, block: Seq<char>)
    requires
        is_symbol_block(block, mpn),
        !contains(t, symbol_marker(mpn)),
        no_spaced_repeat(mpn),
    ensures
        merged_library(Some(merged_library(Some(t), mpn, block)), mpn, block) == merged_library(
            Some(t),
            mpn,
            block,
        ),
{
    let m = symbol_marker(mpn);
    let x = merged_library(Some(t), mpn, block);
    reveal_strlit("  ");
    reveal_strlit("\n");
    lemma_symbol_marker(mpn);
    lemma_find(t, m);
    lemma_balanced_block(t, m);
    let tr = trim_end(t);
    let k = insertion_point(tr);
    lemma_insertion_point(tr);
    lemma_trim_end_prefix(t);
    let piece = "  "@ + block + "\n"@;
    assert(x == tr.subrange(0, k) + piece + tr.subrange(k, tr.len() as int));
    assert(x.subrange(k + 2, k + 2 + block.len()) =~= block);
    assert(x[k] == ' ');
    assert(x[k + 1] == ' ');
    assert(block.subrange(0, m.len() as int) == m);
    assert forall|j: int| 0 <= j < k + 2 implies !occurs_at(x, m, j) by {
        if occurs_at(x, m, j) {
            assert(x.subrange(j, j + m.len())[0] == m[0]);
            if j + m.len() <= k {
                assert(x.subrange(j, j + m.len()) =~= t.subrange(j, j + m.len()));
                assert(occurs_at(t, m, j));
            } else if j < k {
                assert(x.subrange(j, j + m.len())[m.len() - 1] == m.last());
                if j + m.len() - 1 >= k + 2 {
                    let d = k - j;
                    assert(x.subrange(j, j + m.len())[d] == m[d]);
                    assert(x.subrange(j, j + m.len())[d + 1] == m[d + 1]);
                    assert(m[d] == ' ' && m[d + 1] == ' ');
                    assert forall|i: int| 0 <= i < m.len() - d - 2 implies #[trigger] m.subrange(
                        d + 2,
                        m.len() as int,
                    )[i] == m.subrange(0, m.len() - d - 2)[i] by {
                        assert(x.subrange(j, j + m.len())[d + 2 + i] == m[d + 2 + i]);
                        assert(x.subrange(k + 2, k + 2 + block.len())[i] == block[i]);
                        assert(block.subrange(0, m.len() as int)[i] == m[i]);
                    }
                    assert(m.subrange(d + 2, m.len() as int) =~= m.subrange(
                        0,
                        m.len() - d - 2,
                    ));
                } else {
                    assert(x[j + m.len() - 1] == ' ');
                }
            }
        }
    }
    lemma_found_again(x, mpn, block, k + 2);
}

/// Merging the same symbol block twice gives what merging it once gave:
/// installing a part again does not duplicate its symbol.
///
/// Holds for every well-formed block when there is no library yet or the
/// library already holds a balanced block of the part. Into a library that
/// does not name the part, the block is inserted after two spaces of
/// indentation; a marker that repeats its own beginning after two spaces
/// could then match earlier, across that indentation, so such part numbers
/// are left out there.
pub proof fn law_merge_symbol_library_idempotent(
    existing: Option<Seq<char>>,
    mpn: Seq<char>,
    block: Seq<char>,
)
    requires
        is_symbol_block(block, mpn),
        match existing {
            Some(t) => balanced_block(t, symbol_marker(mpn)) is Some || (!contains(
                t,
                symbol_marker(mpn),
            ) && no_spaced_repeat(mpn)),
            None => true,
        },
    ensures
        merged_library(Some(merged_library(existing, mpn, block)), mpn, block) == merged_library(
            existing,
            mpn,
            block,
        ),
{
    match existing {
        None => lemma_merge_again_new(mpn, block),
        Some(t) => if balanced_block(t, symbol_marker(mpn)) is Some {
            lemma_merge_again_replace(t, mpn, block);
        } else {
            lemma_merge_again_insert(t, mpn, block);
        },
    }
}

/// Adding the same library row twice gives what adding it once gave: a
/// table never lists a library twice.
pub proof fn law_add_lib_table_row_idempotent(
    existing: Option<Seq<char>>,
    table_tag: Seq<char>,
    lib_name: Seq<char>,
    lib_type: Seq<char>,
    uri: Seq<char>,
)
    ensures
        table_with_row(
            Some(table_with_row(existing, table_tag, lib_name, lib_type, uri)),
            table_tag,
            lib_name,
            lib_type,
            uri,
        ) == table_with_row(existing, table_tag, lib_name, lib_type, uri),
{
    let x = table_with_row(existing, table_tag, lib_name, lib_type, uri);
    let row = lib_table_row(lib_name, lib_type, uri);
    let nm = name_marker(lib_name);
    let nl = nm.len() as int;
    reveal_strlit("  (lib (name \"");
    reveal_strlit("(name \"");
    reveal_strlit("\")(type \"");
    reveal_strlit("\")");
    assert(row.subrange(7, 7 + nl) =~= nm);
    match existing {
        Some(t) => {
            if !contains(t, nm) {
                let tr = trim_end(t);
                let k = insertion_point(tr);
                lemma_insertion_point(tr);
                assert(x.subrange(k + 7, k + 7 + nl) =~= row.subrange(7, 7 + nl));
                lemma_occurs_contains(x, nm, k + 7);
            }
        },
        None => {
            reveal_strlit("(");
            reveal_strlit("\n");
            let off: int = (2 + table_tag.len()) as int;
            assert(x.subrange(off + 7, off + 7 + nl) =~= row.subrange(7, 7 + nl));
            lemma_occurs_contains(x, nm, off + 7);
        },
    }
}

/// The group inside a 3D-model block: `(model "PATH" ...)` without the
/// indentation before it and the newline after it.
pub open spec fn model_group(path: Seq<char>) -> Seq<char> {
    model_block(path).subrange(2, model_block(path).len() - 1)
}

/// A 3D-model block ends with `)` and a newline, so trimming it drops just
/// the newline.
proof fn lemma_model_block_trim(path: Seq<char>)
    ensures
        model_block(path).len() >= 12,
        trim_end(model_block(path)) == model_block(path).drop_last(),
        model_block(path) == "  "@ + model_group(path) + "\n"@,
{
    reveal_strlit("  (model \"");
    reveal_strlit(
        "\"\n    (offset (xyz 0 0 0))\n    (scale (xyz 1 1 1))\n    (rotate (xyz 0 0 0))\n  )\n",
    );
    reveal_strlit("  ");
    reveal_strlit("\n");
    let mb = model_block(path);
    assert(mb.last() == '\n');
    assert(mb.drop_last().last() == ')');
    assert(mb.drop_last().drop_last() =~= mb.subrange(0, mb.len() - 2));
    assert(trim_end(mb.drop_last()) == mb.drop_last());
    assert(mb =~= "  "@ + model_group(path) + "\n"@);
}

/// For a path without parentheses, the model group begins with the model
/// marker, closes exactly at its end, and the whole block is balanced.
proof fn lemma_model_group(path: Seq<char>)
    requires
        paren_free(path),
    ensures
        occurs_at(model_group(path), model_marker(), 0),
        block_end(model_group(path), 0) == Some(model_group(path).len() as int),
        paren_depth(model_block(path)) == 0,
        paren_depth(model_group(path)) == 0,
        well_nested(model_group(path)),
        well_nested("  "@ + model_group(path)),
        well_nested(model_block(path)),
{
    let head = "  (model \""@;
    let tail = "\"\n    (offset (xyz 0 0 0))\n    (scale (xyz 1 1 1))\n    (rotate (xyz 0 0 0))\n  )\n"@;
    reveal_strlit("  (model \"");
    reveal_strlit(
        "\"\n    (offset (xyz 0 0 0))\n    (scale (xyz 1 1 1))\n    (rotate (xyz 0 0 0))\n  )\n",
    );
    reveal_strlit("(model ");
    reveal_strlit("model \"");
    reveal_strlit("xyz 0 0 0");
    reveal_strlit("xyz 1 1 1");
    reveal_strlit("offset ");
    reveal_strlit("scale ");
    reveal_strlit("rotate ");
    reveal_strlit("\"\n    ");
    reveal_strlit("\n    ");
    reveal_strlit("\n  ");
    reveal_strlit("  ");
    reveal_strlit("\n");
    lemma_model_block_trim(path);
    let z = "xyz 0 0 0"@;
    let one = "xyz 1 1 1"@;
    let g1 = wrap("offset "@ + wrap(z));
    let g2 = wrap("scale "@ + wrap(one));
    let g3 = wrap("rotate "@ + wrap(z));
    let sep = "\n    "@;
    let inner = "\"\n    "@ + g1 + sep + g2 + sep + g3 + "\n  "@;
    let r = "model \""@ + path + inner;
    assert(tail =~= inner + seq![')'] + "\n"@);
    assert(head =~= "  "@ + seq!['('] + "model \""@);
    assert(model_group(path) =~= wrap(r));
    // The groups nest well.
    lemma_paren_free(z);
    lemma_paren_free(one);
    lemma_wrap(z);
    lemma_wrap(one);
    lemma_paren_free("offset "@);
    lemma_paren_free("scale "@);
    lemma_paren_free("rotate "@);
    lemma_well_nested_concat("offset "@, wrap(z));
    lemma_well_nested_concat("scale "@, wrap(one));
    lemma_well_nested_concat("rotate "@, wrap(z));
    lemma_wrap("offset "@ + wrap(z));
    lemma_wrap("scale "@ + wrap(one));
    lemma_wrap("rotate "@ + wrap(z));
    lemma_paren_free("\"\n    "@);
    lemma_paren_free(sep);
    lemma_paren_free("\n  "@);
    lemma_paren_free("model \""@);
    lemma_paren_free(path);
    lemma_well_nested_concat("\"\n    "@, g1);
    lemma_well_nested_concat("\"\n    "@ + g1, sep);
    lemma_well_nested_concat("\"\n    "@ + g1 + sep, g2);
    lemma_well_nested_concat("\"\n    "@ + g1 + sep + g2, sep);
    lemma_well_nested_concat("\"\n    "@ + g1 + sep + g2 + sep, g3);
    lemma_well_nested_concat("\"\n    "@ + g1 + sep + g2 + sep + g3, "\n  "@);
    lemma_well_nested_concat("model \""@, path);
    lemma_well_nested_concat("model \""@ + path, inner);
    lemma_wrap(r);
    assert(model_group(path).subrange(0, 7) =~= model_marker());
    lemma_paren_free("  "@);
    lemma_paren_free("\n"@);
    lemma_depth_concat("  "@, model_group(path));
    lemma_depth_concat("  "@ + model_group(path), "\n"@);
    lemma_well_nested_concat("  "@, model_group(path));
    lemma_well_nested_concat("  "@ + model_group(path), "\n"@);
}

/// Text `s` ends with `(model`, a marker missing only its space.
pub open spec fn ends_with_model_word(s: Seq<char>) -> bool {
    s.len() >= 6 && s.subrange(s.len() - 6, s.len() as int) == "(model"@
}

/// Where `patch_footprint_3d_model` puts the model block of footprint `f`.
pub open spec fn model_anchor(f: Seq<char>) -> int {
    match balanced_block(f, model_marker()) {
        Some((start, _)) => start,
        None => insertion_point(trim_end(f)),
    }
}

/// The footprints for which patching twice behaves as patching once: the
/// first `(model ` is the start of a balanced block, or there is none; and
/// the text just before where the new block goes does not end with `(model`.
pub open spec fn repatchable(f: Seq<char>) -> bool {
    match balanced_block(f, model_marker()) {
        Some((start, _)) => !ends_with_model_word(f.subrange(0, start)),
        None => !contains(f, model_marker()) && !ends_with_model_word(
            trim_end(f).subrange(0, insertion_point(trim_end(f))),
        ),
    }
}

/// In `x`, the first `(model ` is at `k + 2`, where `x` holds two spaces at
/// `k` and the model group of `path` right after them, and `x` agrees before
/// `k` with text `f` in which the marker does not occur before `k`.
proof fn lemma_model_found_at(x: Seq<char>, f: Seq<char>, path: Seq<char>, k: int)
    requires
        paren_free(path),
        0 <= k,
        k + 2 + model_group(path).len() <= x.len(),
        k <= f.len(),
        forall|i: int| 0 <= i < k ==> x[i] == f[i],
        x[k] == ' ',
        x[k + 1] == ' ',
        x.subrange(k + 2, k + 2 + model_group(path).len()) == model_group(path),
        forall|j: int| 0 <= j < k && j + 7 <= k ==> !occurs_at(f, model_marker(), j),
        !ends_with_model_word(f.subrange(0, k)),
    ensures
        balanced_block(x, model_marker()) == Some((k + 2, k + 2 + model_group(path).len())),
{
    let mm = model_marker();
    let g = model_group(path);
    reveal_strlit("(model ");
    reveal_strlit("(model");
    lemma_model_group(path);
    assert(x.subrange(k + 2, k + 2 + 7) =~= g.subrange(0, 7));
    assert forall|j: int| 0 <= j < k + 2 implies !occurs_at(x, mm, j) by {
        if occurs_at(x, mm, j) {
            assert(x.subrange(j, j + 7)[0] == '(');
            if j + 7 <= k {
                assert forall|i: int| 0 <= i < 7 implies #[trigger] x.subrange(j, j + 7)[i]
                    == f.subrange(j, j + 7)[i] by {
                    assert(x[j + i] == f[j + i]);
                }
                assert(x.subrange(j, j + 7) =~= f.subrange(j, j + 7));
                assert(occurs_at(f, mm, j));
            } else if j < k {
                assert(x.subrange(j, j + 7)[k - j] == x[k]);
                assert(k - j == 6);
                assert(f.subrange(0, k).subrange(k - 6, k) =~= "(model"@) by {
                    assert forall|i: int| 0 <= i < 6 implies #[trigger] f.subrange(0, k).subrange(
                        k - 6,
                        k,
                    )[i] == "(model"@[i] by {
                        assert(x[k - 6 + i] == f[k - 6 + i]);
                        assert(x.subrange(j, j + 7)[i] == mm[i]);
                    }
                }
            }
        }
    }
    crate::text::lemma_find_is(x, mm, k + 2);
    lemma_block_end_shift(x, g, k + 2);
}

proof fn lemma_patch_again_replace(f: Seq<char>, first: Seq<char>, second: Seq<char>)
    requires
        paren_free(first),
        repatchable(f),
        balanced_block(f, model_marker()) is Some,
    ensures
        ({
            let once = patched_footprint(f, second);
            let k = model_anchor(f);
            patched_footprint(patched_footprint(f, first), second) == once.subrange(0, k) + "  "@
                + once.subrange(k, once.len() as int)
        }),
{
    let mm = model_marker();
    let x = patched_footprint(f, first);
    let g = model_group(first);
    reveal_strlit("  ");
    lemma_model_block_trim(first);
    lemma_model_block_trim(second);
    lemma_balanced_block(f, mm);
    crate::text::lemma_find(f, mm);
    let tb = trim_end(model_block(second));
    let (s, e) = balanced_block(f, mm).unwrap();
    assert(trim_end(model_block(first)) =~= "  "@ + g);
    assert(x == f.subrange(0, s) + ("  "@ + g) + f.subrange(e, f.len() as int));
    assert(x.subrange(s + 2, s + 2 + g.len()) =~= g);
    lemma_model_found_at(x, f, first, s);
    let once = patched_footprint(f, second);
    assert(once == f.subrange(0, s) + tb + f.subrange(e, f.len() as int));
    assert(patched_footprint(x, second) =~= once.subrange(0, s) + "  "@ + once.subrange(
        s,
        once.len() as int,
    ));
}

proof fn lemma_patch_again_insert(f: Seq<char>, first: Seq<char>, second: Seq<char>)
    requires
        paren_free(first),
        repatchable(f),
        balanced_block(f, model_marker()) is None,
    ensures
        ({
            let once = patched_footprint(f, second);
            let k = model_anchor(f);
            patched_footprint(patched_footprint(f, first), second) == once.subrange(0, k) + "  "@
                + once.subrange(k, once.len() as int)
        }),
{
    let mm = model_marker();
    let x = patched_footprint(f, first);
    let g = model_group(first);
    reveal_strlit("  ");
    reveal_strlit("\n");
    lemma_model_block_trim(first);
    lemma_model_block_trim(second);
    crate::text::lemma_find(f, mm);
    let tr = trim_end(f);
    let k = insertion_point(tr);
    lemma_insertion_point(tr);
    lemma_trim_end_prefix(f);
    let mb = model_block(first);
    assert(x == tr.subrange(0, k) + mb + tr.subrange(k, tr.len() as int));
    assert(tr.subrange(0, k) =~= f.subrange(0, k));
    assert forall|i: int| 0 <= i < k implies x[i] == f[i] by {
        assert(tr.subrange(0, k)[i] == f.subrange(0, k)[i]);
    }
    assert(x.subrange(k + 2, k + 2 + g.len()) =~= g);
    assert(x[k] == mb[0]);
    assert(x[k + 1] == mb[1]);
    lemma_model_found_at(x, f, first, k);
    let once = patched_footprint(f, second);
    assert(once == tr.subrange(0, k) + model_block(second) + tr.subrange(k, tr.len() as int));
    assert(patched_footprint(x, second) =~= once.subrange(0, k) + "  "@ + once.subrange(
        k,
        once.len() as int,
    ));
}

/// Patching a patched footprint again leaves no trace of the first path:
/// the result is what patching once with the second path gives, with the
/// model block two spaces further indented (the first patch's indentation,
/// which the second keeps in front of the block it replaces).
pub proof fn law_patch_footprint_again(footprint: Seq<char>, first: Seq<char>, second: Seq<char>)
    requires
        paren_free(first),
        repatchable(footprint),
    ensures
        ({
            let once = patched_footprint(footprint, second);
            let k = model_anchor(footprint);
            patched_footprint(patched_footprint(footprint, first), second) == once.subrange(0, k)
                + "  "@ + once.subrange(k, once.len() as int)
        }),
{
    if balanced_block(footprint, model_marker()) is Some {
        lemma_patch_again_replace(footprint, first, second);
    } else {
        lemma_patch_again_insert(footprint, first, second);
    }
}

/// Pointing a footprint at a STEP path without parentheses keeps its
/// parenthesis balance: the depth is unchanged, and a balanced footprint
/// (no prefix closes more than it opens, totals equal) stays balanced.
pub proof fn law_patch_footprint_keeps_balance(footprint: Seq<char>, path: Seq<char>)
    requires
        paren_free(path),
    ensures
        paren_depth(patched_footprint(footprint, path)) == paren_depth(footprint),
        well_nested(footprint) ==> well_nested(patched_footprint(footprint, path)),
{
    let f = footprint;
    let mm = model_marker();
    lemma_model_block_trim(path);
    lemma_model_group(path);
    lemma_balanced_block(f, mm);
    let mb = model_block(path);
    let tb = trim_end(mb);
    reveal_strlit("  ");
    reveal_strlit("\n");
    lemma_paren_free("  "@);
    lemma_depth_concat("  "@, model_group(path));
    assert(tb =~= "  "@ + model_group(path));
    match balanced_block(f, mm) {
        Some((s, e)) => {
            let a = f.subrange(0, s);
            let b = f.subrange(s, e);
            let c = f.subrange(e, f.len() as int);
            assert(f =~= a + b + c);
            lemma_depth_concat(a, b);
            lemma_depth_concat(a + b, c);
            lemma_depth_concat(a, tb);
            lemma_depth_concat(a + tb, c);
            if well_nested(f) {
                lemma_splice_never_below(a, b, c, tb);
            }
        },
        None => {
            let tr = trim_end(f);
            let k = insertion_point(tr);
            lemma_insertion_point(tr);
            lemma_trim_end_prefix(f);
            let a = tr.subrange(0, k);
            let c = tr.subrange(k, tr.len() as int);
            assert(tr =~= a + c);
            lemma_depth_concat(a, c);
            lemma_depth_concat(a, mb);
            lemma_depth_concat(a + mb, c);
            if well_nested(f) {
                lemma_never_below_prefix(f, tr.len() as int);
                assert(tr =~= a + Seq::<char>::empty() + c);
                assert(paren_depth(Seq::<char>::empty()) == 0);
                lemma_splice_never_below(a, Seq::<char>::empty(), c, mb);
            }
        },
    }
}

proof fn lemma_new_library_depth()
    ensures
        paren_depth(new_library_head()) == 1,
        paren_depth(new_library_tail()) == -1,
        never_below_zero(new_library_head()),
        forall|j: int|
            0 <= j <= new_library_tail().len() ==> paren_depth(
                #[trigger] new_library_tail().subrange(0, j),
            ) >= -1,
{
    reveal_strlit("(kicad_symbol_lib\n  (version 20211014)\n  (generator openparts-kicad-plugin)\n  ");
    reveal_strlit("\n)\n");
    reveal_strlit("kicad_symbol_lib\n  ");
    reveal_strlit("version 20211014");
    reveal_strlit("generator openparts-kicad-plugin");
    reveal_strlit("\n  ");
    reveal_strlit("\n");
    let a = "kicad_symbol_lib\n  "@;
    let v = "version 20211014"@;
    let g = "generator openparts-kicad-plugin"@;
    let sep = "\n  "@;
    let open = seq!['('];
    let close = seq![')'];
    assert(new_library_head() =~= open + a + wrap(v) + sep + wrap(g) + sep);
    assert(new_library_tail() =~= "\n"@ + close + "\n"@);
    lemma_paren_free(a);
    lemma_paren_free(v);
    lemma_paren_free(g);
    lemma_paren_free(sep);
    lemma_paren_free("\n"@);
    lemma_wrap(v);
    lemma_wrap(g);
    crate::text::lemma_depth_single('(');
    crate::text::lemma_depth_single(')');
    lemma_depth_concat(open, a);
    lemma_depth_concat(open + a, wrap(v));
    lemma_depth_concat(open + a + wrap(v), sep);
    lemma_depth_concat(open + a + wrap(v) + sep, wrap(g));
    lemma_depth_concat(open + a + wrap(v) + sep + wrap(g), sep);
    lemma_depth_concat("\n"@, close);
    lemma_depth_concat("\n"@ + close, "\n"@);
    lemma_open_alone();
    lemma_well_nested_concat(a, wrap(v));
    lemma_well_nested_concat(a + wrap(v), sep);
    lemma_well_nested_concat(a + wrap(v) + sep, wrap(g));
    lemma_well_nested_concat(a + wrap(v) + sep + wrap(g), sep);
    crate::text::lemma_never_below_concat(open, a + wrap(v) + sep + wrap(g) + sep);
    assert(open + a + wrap(v) + sep + wrap(g) + sep =~= open + (a + wrap(v) + sep + wrap(g) + sep));
    lemma_close_prefixes("\n"@, "\n"@);
}

/// Merging a symbol block adds the block's parenthesis balance to the
/// library's (a missing library counts as empty), and a balanced block
/// (no prefix closes more than it opens, totals equal) keeps a balanced
/// library balanced.
pub proof fn law_merge_symbol_library_keeps_balance(
    existing: Option<Seq<char>>,
    mpn: Seq<char>,
    block: Seq<char>,
)
    ensures
        paren_depth(merged_library(existing, mpn, block)) == match existing {
            Some(t) => paren_depth(t),
            None => 0,
        } + paren_depth(block),
        (match existing {
            Some(t) => well_nested(t),
            None => true,
        }) && well_nested(block) ==> well_nested(merged_library(existing, mpn, block)),
{
    let m = symbol_marker(mpn);
    match existing {
        None => {
            lemma_new_library_depth();
            lemma_depth_concat(new_library_head(), block);
            lemma_depth_concat(new_library_head() + block, new_library_tail());
            if well_nested(block) {
                crate::text::lemma_never_below_concat(new_library_head(), block);
                lemma_never_below_shift(new_library_head() + block, new_library_tail(), 1);
            }
        },
        Some(t) => {
            lemma_balanced_block(t, m);
            match balanced_block(t, m) {
                Some((s, e)) => {
                    let a = t.subrange(0, s);
                    let b = t.subrange(s, e);
                    let c = t.subrange(e, t.len() as int);
                    assert(t =~= a + b + c);
                    lemma_depth_concat(a, b);
                    lemma_depth_concat(a + b, c);
                    lemma_depth_concat(a, block);
                    lemma_depth_concat(a + block, c);
                    if well_nested(t) && well_nested(block) {
                        lemma_splice_never_below(a, b, c, block);
                    }
                },
                None => {
                    reveal_strlit("  ");
                    reveal_strlit("\n");
                    lemma_paren_free("  "@);
                    lemma_paren_free("\n"@);
                    let piece = "  "@ + block + "\n"@;
                    lemma_depth_concat("  "@, block);
                    lemma_depth_concat("  "@ + block, "\n"@);
                    let tr = trim_end(t);
                    let k = insertion_point(tr);
                    lemma_insertion_point(tr);
                    lemma_trim_end_prefix(t);
                    let a = tr.subrange(0, k);
                    let c = tr.subrange(k, tr.len() as int);
                    assert(tr =~= a + c);
                    lemma_depth_concat(a, c);
                    lemma_depth_concat(a, piece);
                    lemma_depth_concat(a + piece, c);
                    if well_nested(t) && well_nested(block) {
                        lemma_well_nested_concat("  "@, block);
                        lemma_well_nested_concat("  "@ + block, "\n"@);
                        lemma_never_below_prefix(t, tr.len() as int);
                        assert(tr =~= a + Seq::<char>::empty() + c);
                        assert(paren_depth(Seq::<char>::empty()) == 0);
                        lemma_splice_never_below(a, Seq::<char>::empty(), c, piece);
                    }
                },
            }
        },
    }
}

/// The first balanced block of a part's marker is cut short inside the
/// marker exactly when the marker closes itself: then every such block is
/// the same leading part of the marker; otherwise every such block is a
/// symbol block of the part.
proof fn lemma_marker_block(text: Seq<char>, mpn: Seq<char>)
    requires
        balanced_block(text, symbol_marker(mpn)) is Some,
    ensures
        ({
            let m = symbol_marker(mpn);
            let (s, e) = balanced_block(text, m).unwrap();
            match block_end(m, 0) {
                Some(l) => e == s + l && text.subrange(s, e) == m.subrange(0, l),
                None => is_symbol_block(text.subrange(s, e), mpn),
            }
        }),
{
    let m = symbol_marker(mpn);
    lemma_balanced_block(text, m);
    law_extracted_block_is_balanced(text, mpn);
    let (s, e) = balanced_block(text, m).unwrap();
    crate::text::lemma_block_end(m, 0);
    crate::text::lemma_block_end(text, s);
    assert(m.subrange(0, m.len() as int) =~= m);
    match block_end(m, 0) {
        Some(l) => {
            lemma_closes_shift(text, m, s, l);
            assert forall|j: int| s < j < s + l implies !closes_at(text, s, j) by {
                lemma_closes_shift(text, m, s, j - s);
            }
            lemma_block_end_is(text, s, s + l);
            assert(text.subrange(s, s + l) =~= m.subrange(0, l)) by {
                assert forall|i: int| 0 <= i < l implies #[trigger] text.subrange(s, s + l)[i]
                    == m.subrange(0, l)[i] by {
                    assert(text.subrange(s, s + m.len())[i] == m[i]);
                }
            }
        },
        None => {
            if e <= s + m.len() {
                lemma_closes_shift(text, m, s, e - s);
            }
            let b = text.subrange(s, e);
            assert(b.subrange(0, m.len() as int) =~= text.subrange(s, s + m.len()));
        },
    }
}

/// A part number in which no prefix has more `)` than `(` gives a marker
/// that does not close itself.
proof fn lemma_marker_stays_open(mpn: Seq<char>)
    requires
        never_below_zero(mpn),
    ensures
        block_end(symbol_marker(mpn), 0) is None,
{
    let m = symbol_marker(mpn);
    lemma_symbol_marker(mpn);
    crate::text::lemma_block_end(m, 0);
    if let Some(l) = block_end(m, 0) {
        assert(closes_at(m, 0, l));
        assert(m[l - 1] == ')');
    }
}

/// Installing a part's symbol twice leaves the combined library as the
/// first install left it: the block extracted from the fetched library,
/// merged a second time, changes nothing.
///
/// Into a library that already holds a balanced block of the part this
/// holds for every part number. Into a missing library, or one that does
/// not name the part, it is stated for part numbers in which no prefix has
/// more `)` than `(` (for the others the extracted block stops inside the
/// marker, so the merged library no longer holds the marker) and, for the
/// latter, without a marker that repeats its own beginning after two
/// spaces (see `no_spaced_repeat`).
pub proof fn law_install_symbol_twice(
    fetched: Seq<char>,
    existing: Option<Seq<char>>,
    mpn: Seq<char>,
)
    requires
        extracted_block(fetched, mpn) is Some,
        match existing {
            Some(t) => balanced_block(t, symbol_marker(mpn)) is Some || (!contains(
                t,
                symbol_marker(mpn),
            ) && never_below_zero(mpn) && no_spaced_repeat(mpn)),
            None => never_below_zero(mpn),
        },
    ensures
        ({
            let block = extracted_block(fetched, mpn).unwrap();
            let once = merged_library(existing, mpn, block);
            merged_library(Some(once), mpn, block) == once
        }),
{
    let m = symbol_marker(mpn);
    let block = extracted_block(fetched, mpn).unwrap();
    lemma_marker_block(fetched, mpn);
    match block_end(m, 0) {
        None => {
            law_merge_symbol_library_idempotent(existing, mpn, block);
        },
        Some(l) => {
            if never_below_zero(mpn) {
                lemma_marker_stays_open(mpn);
            }
            let t = existing.unwrap();
            lemma_marker_block(t, mpn);
            lemma_balanced_block(t, m);
            let (s, e) = balanced_block(t, m).unwrap();
            assert(t.subrange(s, e) == block);
            assert(t.subrange(0, s) + block + t.subrange(e, t.len() as int) =~= t);
        },
    }
}

/// A library-table row whose fields hold no parentheses is balanced.
proof fn lemma_lib_table_row_depth(lib_name: Seq<char>, lib_type: Seq<char>, uri: Seq<char>)
    requires
        paren_free(lib_name),
        paren_free(lib_type),
        paren_free(uri),
    ensures
        well_nested(lib_table_row(lib_name, lib_type, uri)),
{
    reveal_strlit("  (lib (name \"");
    reveal_strlit("\")(type \"");
    reveal_strlit("\")(uri \"");
    reveal_strlit("\")(options \"\")(descr \"\"))\n");
    reveal_strlit("  ");
    reveal_strlit("lib ");
    reveal_strlit("name \"");
    reveal_strlit("type \"");
    reveal_strlit("uri \"");
    reveal_strlit("options \"\"");
    reveal_strlit("descr \"\"");
    reveal_strlit("\"");
    reveal_strlit("\n");
    let q = "\""@;
    let f_name = "name \""@ + lib_name + q;
    let f_type = "type \""@ + lib_type + q;
    let f_uri = "uri \""@ + uri + q;
    let f_opt = "options \"\""@;
    let f_descr = "descr \"\""@;
    let body = "lib "@ + wrap(f_name) + wrap(f_type) + wrap(f_uri) + wrap(f_opt) + wrap(f_descr);
    assert(lib_table_row(lib_name, lib_type, uri) =~= "  "@ + wrap(body) + "\n"@);
    lemma_paren_free(q);
    lemma_paren_free("name \""@);
    lemma_paren_free("type \""@);
    lemma_paren_free("uri \""@);
    lemma_paren_free(f_opt);
    lemma_paren_free(f_descr);
    lemma_paren_free(lib_name);
    lemma_paren_free(lib_type);
    lemma_paren_free(uri);
    lemma_paren_free("lib "@);
    lemma_paren_free("  "@);
    lemma_paren_free("\n"@);
    lemma_well_nested_concat("name \""@, lib_name);
    lemma_well_nested_concat("name \""@ + lib_name, q);
    lemma_well_nested_concat("type \""@, lib_type);
    lemma_well_nested_concat("type \""@ + lib_type, q);
    lemma_well_nested_concat("uri \""@, uri);
    lemma_well_nested_concat("uri \""@ + uri, q);
    lemma_wrap(f_name);
    lemma_wrap(f_type);
    lemma_wrap(f_uri);
    lemma_wrap(f_opt);
    lemma_wrap(f_descr);
    lemma_well_nested_concat("lib "@, wrap(f_name));
    lemma_well_nested_concat("lib "@ + wrap(f_name), wrap(f_type));
    lemma_well_nested_concat("lib "@ + wrap(f_name) + wrap(f_type), wrap(f_uri));
    lemma_well_nested_concat("lib "@ + wrap(f_name) + wrap(f_type) + wrap(f_uri), wrap(f_opt));
    lemma_well_nested_concat(
        "lib "@ + wrap(f_name) + wrap(f_type) + wrap(f_uri) + wrap(f_opt),
        wrap(f_descr),
    );
    lemma_wrap(body);
    lemma_well_nested_concat("  "@, wrap(body));
    lemma_well_nested_concat("  "@ + wrap(body), "\n"@);
}

/// Registering a library whose name, type and URI hold no parentheses
/// keeps a table's parenthesis balance, and a balanced table (no prefix
/// closes more than it opens, totals equal) stays balanced; a new table is
/// as balanced as its tag.
pub proof fn law_add_lib_table_row_keeps_balance(
    existing: Option<Seq<char>>,
    table_tag: Seq<char>,
    lib_name: Seq<char>,
    lib_type: Seq<char>,
    uri: Seq<char>,
)
    requires
        paren_free(lib_name),
        paren_free(lib_type),
        paren_free(uri),
    ensures
        paren_depth(table_with_row(existing, table_tag, lib_name, lib_type, uri)) == match existing {
            Some(t) => paren_depth(t),
            None => paren_depth(table_tag),
        },
        match existing {
            Some(t) => well_nested(t),
            None => well_nested(table_tag),
        } ==> well_nested(table_with_row(existing, table_tag, lib_name, lib_type, uri)),
{
    let row = lib_table_row(lib_name, lib_type, uri);
    lemma_lib_table_row_depth(lib_name, lib_type, uri);
    match existing {
        Some(t) => {
            if !contains(t, name_marker(lib_name)) {
                let tr = trim_end(t);
                let k = insertion_point(tr);
                lemma_insertion_point(tr);
                lemma_trim_end_prefix(t);
                let a = tr.subrange(0, k);
                let c = tr.subrange(k, tr.len() as int);
                assert(tr =~= a + c);
                lemma_depth_concat(a, c);
                lemma_depth_concat(a, row);
                lemma_depth_concat(a + row, c);
                if well_nested(t) {
                    lemma_never_below_prefix(t, tr.len() as int);
                    assert(tr =~= a + Seq::<char>::empty() + c);
                    assert(paren_depth(Seq::<char>::empty()) == 0);
                    lemma_splice_never_below(a, Seq::<char>::empty(), c, row);
                }
            }
        },
        None => {
            reveal_strlit("(");
            reveal_strlit("\n");
            reveal_strlit(")\n");
            let open = "("@;
            let nl = "\n"@;
            let close = ")\n"@;
            assert(open =~= seq!['(']);
            assert(close =~= seq![')'] + nl);
            crate::text::lemma_depth_single('(');
            crate::text::lemma_depth_single(')');
            lemma_paren_free(nl);
            lemma_depth_concat(seq![')'], nl);
            lemma_depth_concat(open, table_tag);
            lemma_depth_concat(open + table_tag, nl);
            lemma_depth_concat(open + table_tag + nl, row);
            lemma_depth_concat(open + table_tag + nl + row, close);
            if well_nested(table_tag) {
                lemma_open_alone();
                crate::text::lemma_never_below_concat(open, table_tag);
                crate::text::lemma_never_below_concat(open + table_tag, nl);
                crate::text::lemma_never_below_concat(open + table_tag + nl, row);
                lemma_close_prefixes(Seq::<char>::empty(), nl);
                assert(Seq::<char>::empty() + seq![')'] + nl =~= close);
                lemma_never_below_shift(open + table_tag + nl + row, close, 1);
            }
        },
    }
}

// ---------------------------------------------------------------------------
// Where each operation puts its text, stated on the inputs
// ---------------------------------------------------------------------------

/// Extraction finds the part's block: when `(symbol "MPN"` first occurs at
/// `s` and the block that starts there first closes at `e`, the extracted
/// block is `text[s..e]`, however long it is.
pub proof fn law_extract_finds_first_block(text: Seq<char>, mpn: Seq<char>, s: int, e: int)
    requires
        occurs_at(text, "(symbol \""@ + mpn + "\""@, s),
        forall|j: int| 0 <= j < s ==> !occurs_at(text, "(symbol \""@ + mpn + "\""@, j),
        closes_at(text, s, e),
        forall|j: int| s < j < e ==> !closes_at(text, s, j),
    ensures
        extracted_block(text, mpn) == Some(text.subrange(s, e)),
{
    crate::text::lemma_balanced_block_is(text, symbol_marker(mpn), s, e);
}

/// Extraction fails only when no block that begins with `(symbol "MPN"`
/// ever closes.
pub proof fn law_extract_fails_without_closed_block(text: Seq<char>, mpn: Seq<char>)
    requires
        forall|j: int, e: int|
            occurs_at(text, "(symbol \""@ + mpn + "\""@, j) ==> !closes_at(text, j, e),
    ensures
        extracted_block(text, mpn) is None,
{
    crate::text::lemma_balanced_block_none(text, symbol_marker(mpn));
}

/// Merging into a library that holds the part's block (first occurrence of
/// `(symbol "MPN"` at `s`, closing first at `e`) replaces exactly that
/// block and keeps everything around it.
pub proof fn law_merge_replaces_in_place(
    t: Seq<char>,
    mpn: Seq<char>,
    block: Seq<char>,
    s: int,
    e: int,
)
    requires
        occurs_at(t, "(symbol \""@ + mpn + "\""@, s),
        forall|j: int| 0 <= j < s ==> !occurs_at(t, "(symbol \""@ + mpn + "\""@, j),
        closes_at(t, s, e),
        forall|j: int| s < j < e ==> !closes_at(t, s, j),
    ensures
        merged_library(Some(t), mpn, block) == t.subrange(0, s) + block + t.subrange(
            e,
            t.len() as int,
        ),
{
    crate::text::lemma_balanced_block_is(t, symbol_marker(mpn), s, e);
}

/// Merging into a library that holds no closed block of the part puts
/// `"  " + block + "\n"` just before the library's last `)`, after removing
/// trailing whitespace (`n` is where it starts, `k` the last `)` before
/// it, or `n` when there is none); all other text stays as it was.
pub proof fn law_merge_inserts_before_last_paren(
    t: Seq<char>,
    mpn: Seq<char>,
    block: Seq<char>,
    n: int,
    k: int,
)
    requires
        forall|j: int, e: int|
            occurs_at(t, "(symbol \""@ + mpn + "\""@, j) ==> !closes_at(t, j, e),
        trailing_space_from(t, n),
        last_close_in(t, n, k),
    ensures
        merged_library(Some(t), mpn, block) == t.subrange(0, k) + "  "@ + block + "\n"@
            + t.subrange(k, n),
{
    crate::text::lemma_balanced_block_none(t, symbol_marker(mpn));
    lemma_insertion_point_is(t, n, k);
    let tr = t.subrange(0, n);
    assert(tr.subrange(0, k) =~= t.subrange(0, k));
    assert(tr.subrange(k, n) =~= t.subrange(k, n));
    assert(merged_library(Some(t), mpn, block) =~= t.subrange(0, k) + "  "@ + block + "\n"@
        + t.subrange(k, n));
}

/// Merging with no library yet creates the library around the block.
pub proof fn law_merge_creates_library(mpn: Seq<char>, block: Seq<char>)
    ensures
        merged_library(None, mpn, block)
            == "(kicad_symbol_lib\n  (version 20211014)\n  (generator openparts-kicad-plugin)\n  "@
            + block + "\n)\n"@,
{
}

/// The 3D-model block written for `path`, with its trailing newline.
proof fn lemma_model_block_text(path: Seq<char>)
    ensures
        model_block(path) == "  (model \""@ + path
            + "\"\n    (offset (xyz 0 0 0))\n    (scale (xyz 1 1 1))\n    (rotate (xyz 0 0 0))\n  )"@
            + "\n"@,
        trim_end(model_block(path)) == "  (model \""@ + path
            + "\"\n    (offset (xyz 0 0 0))\n    (scale (xyz 1 1 1))\n    (rotate (xyz 0 0 0))\n  )"@,
{
    reveal_strlit("\"\n    (offset (xyz 0 0 0))\n    (scale (xyz 1 1 1))\n    (rotate (xyz 0 0 0))\n  )\n");
    reveal_strlit("\"\n    (offset (xyz 0 0 0))\n    (scale (xyz 1 1 1))\n    (rotate (xyz 0 0 0))\n  )");
    reveal_strlit("\n");
    lemma_model_block_trim(path);
    assert(model_block(path) =~= "  (model \""@ + path
        + "\"\n    (offset (xyz 0 0 0))\n    (scale (xyz 1 1 1))\n    (rotate (xyz 0 0 0))\n  )"@
        + "\n"@);
    assert(model_block(path).drop_last() =~= "  (model \""@ + path
        + "\"\n    (offset (xyz 0 0 0))\n    (scale (xyz 1 1 1))\n    (rotate (xyz 0 0 0))\n  )"@);
}

/// A footprint whose model block (first `(model ` at `s`, closing first at
/// `e`) is replaced by the block for `path`: the whole path, then the
/// offset, scale and rotation, and nothing else around it changes.
pub proof fn law_patch_replaces_model(f: Seq<char>, path: Seq<char>, s: int, e: int)
    requires
        occurs_at(f, "(model "@, s),
        forall|j: int| 0 <= j < s ==> !occurs_at(f, "(model "@, j),
        closes_at(f, s, e),
        forall|j: int| s < j < e ==> !closes_at(f, s, j),
    ensures
        patched_footprint(f, path) == f.subrange(0, s) + "  (model \""@ + path
            + "\"\n    (offset (xyz 0 0 0))\n    (scale (xyz 1 1 1))\n    (rotate (xyz 0 0 0))\n  )"@
            + f.subrange(e, f.len() as int),
{
    crate::text::lemma_balanced_block_is(f, model_marker(), s, e);
    lemma_model_block_text(path);
}

/// A footprint without a closed model block gets the block for `path`
/// (with its newline) just before its last `)`, after removing trailing
/// whitespace (`n` is where it starts, `k` the last `)` before it, or `n`).
pub proof fn law_patch_adds_model(f: Seq<char>, path: Seq<char>, n: int, k: int)
    requires
        forall|j: int, e: int| occurs_at(f, "(model "@, j) ==> !closes_at(f, j, e),
        trailing_space_from(f, n),
        last_close_in(f, n, k),
    ensures
        patched_footprint(f, path) == f.subrange(0, k) + "  (model \""@ + path
            + "\"\n    (offset (xyz 0 0 0))\n    (scale (xyz 1 1 1))\n    (rotate (xyz 0 0 0))\n  )\n"@
            + f.subrange(k, n),
{
    crate::text::lemma_balanced_block_none(f, model_marker());
    lemma_insertion_point_is(f, n, k);
    let tr = f.subrange(0, n);
    assert(tr.subrange(0, k) =~= f.subrange(0, k));
    assert(tr.subrange(k, n) =~= f.subrange(k, n));
    assert(patched_footprint(f, path) =~= f.subrange(0, k) + "  (model \""@ + path
        + "\"\n    (offset (xyz 0 0 0))\n    (scale (xyz 1 1 1))\n    (rotate (xyz 0 0 0))\n  )\n"@
        + f.subrange(k, n));
}

/// The model block for `path` holds `(model "PATH"` right after its two
/// spaces of indentation, with more text after it.
proof fn lemma_model_block_names(path: Seq<char>)
    ensures
        occurs_at(model_block(path), "(model \""@ + path + "\""@, 2),
        2 + ("(model \""@ + path + "\""@).len() < model_block(path).len(),
{
    reveal_strlit("  (model \"");
    reveal_strlit("(model \"");
    reveal_strlit("\"");
    reveal_strlit("\"\n    (offset (xyz 0 0 0))\n    (scale (xyz 1 1 1))\n    (rotate (xyz 0 0 0))\n  )\n");
    let w = "(model \""@ + path + "\""@;
    let wl = w.len() as int;
    assert(model_block(path).subrange(2, 2 + wl) =~= w);
}

/// Whatever the footprint, the patched one names the complete path:
/// `(model "PATH"` occurs in it.
pub proof fn law_patch_names_whole_path(f: Seq<char>, path: Seq<char>)
    ensures
        contains(patched_footprint(f, path), "(model \""@ + path + "\""@),
{
    let w = "(model \""@ + path + "\""@;
    let wl = w.len() as int;
    let x = patched_footprint(f, path);
    let mb = model_block(path);
    lemma_model_block_names(path);
    lemma_model_block_trim(path);
    lemma_balanced_block(f, model_marker());
    match balanced_block(f, model_marker()) {
        Some((s, e)) => {
            let tb = mb.drop_last();
            assert(x == f.subrange(0, s) + tb + f.subrange(e, f.len() as int));
            assert forall|i: int| 0 <= i < wl implies #[trigger] x.subrange(s + 2, s + 2 + wl)[i]
                == w[i] by {
                assert(x[s + 2 + i] == tb[2 + i]);
                assert(mb.subrange(2, 2 + wl)[i] == w[i]);
            }
            assert(x.subrange(s + 2, s + 2 + wl) =~= w);
            lemma_occurs_contains(x, w, s + 2);
        },
        None => {
            let tr = trim_end(f);
            let k = insertion_point(tr);
            lemma_insertion_point(tr);
            assert(x == tr.subrange(0, k) + mb + tr.subrange(k, tr.len() as int));
            assert forall|i: int| 0 <= i < wl implies #[trigger] x.subrange(k + 2, k + 2 + wl)[i]
                == w[i] by {
                assert(x[k + 2 + i] == mb[2 + i]);
                assert(mb.subrange(2, 2 + wl)[i] == w[i]);
            }
            assert(x.subrange(k + 2, k + 2 + wl) =~= w);
            lemma_occurs_contains(x, w, k + 2);
        },
    }
}

/// A table that already has a row named `lib_name` (the text
/// `(name "LIB")` occurs in it) is left exactly as it is.
pub proof fn law_table_keeps_named(
    t: Seq<char>,
    table_tag: Seq<char>,
    lib_name: Seq<char>,
    lib_type: Seq<char>,
    uri: Seq<char>,
    i: int,
)
    requires
        occurs_at(t, "(name \""@ + lib_name + "\")"@, i),
    ensures
        table_with_row(Some(t), table_tag, lib_name, lib_type, uri) == t,
{
    lemma_occurs_contains(t, name_marker(lib_name), i);
}

/// A table that does not name `lib_name` gets the new row just before its
/// last `)`, after removing trailing whitespace (`n` is where it starts,
/// `k` the last `)` before it, or `n`); every other row stays as it was.
pub proof fn law_table_inserts_row(
    t: Seq<char>,
    table_tag: Seq<char>,
    lib_name: Seq<char>,
    lib_type: Seq<char>,
    uri: Seq<char>,
    n: int,
    k: int,
)
    requires
        forall|i: int| !occurs_at(t, "(name \""@ + lib_name + "\")"@, i),
        trailing_space_from(t, n),
        last_close_in(t, n, k),
    ensures
        table_with_row(Some(t), table_tag, lib_name, lib_type, uri) == t.subrange(0, k)
            + "  (lib (name \""@ + lib_name + "\")(type \""@ + lib_type + "\")(uri \""@ + uri
            + "\")(options \"\")(descr \"\"))\n"@ + t.subrange(k, n),
{
    crate::text::lemma_find(t, name_marker(lib_name));
    lemma_insertion_point_is(t, n, k);
    let tr = t.subrange(0, n);
    assert(tr.subrange(0, k) =~= t.subrange(0, k));
    assert(tr.subrange(k, n) =~= t.subrange(k, n));
    assert(table_with_row(Some(t), table_tag, lib_name, lib_type, uri) =~= t.subrange(0, k)
        + "  (lib (name \""@ + lib_name + "\")(type \""@ + lib_type + "\")(uri \""@ + uri
        + "\")(options \"\")(descr \"\"))\n"@ + t.subrange(k, n));
}

/// A missing table is created with the tag and the one row.
pub proof fn law_table_creates(
    table_tag: Seq<char>,
    lib_name: Seq<char>,
    lib_type: Seq<char>,
    uri: Seq<char>,
)
    ensures
        table_with_row(None, table_tag, lib_name, lib_type, uri) == "("@ + table_tag + "\n"@
            + "  (lib (name \""@ + lib_name + "\")(type \""@ + lib_type + "\")(uri \""@ + uri
            + "\")(options \"\")(descr \"\"))\n"@ + ")\n"@,
{
}

} // verus!
