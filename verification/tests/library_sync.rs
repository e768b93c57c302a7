use openparts_kicad_plugin::library_sync::{
    add_lib_table_row, extract_symbol_block, merge_symbol_library, patch_footprint_3d_model,
    SyncError,
};

const FETCHED_SYMBOL_LIB: &str = "(kicad_symbol_lib\n  (version 20211014)\n  (generator openparts)\n  (symbol \"RP2040\"\n    (in_bom yes) (on_board yes)\n    (symbol \"RP2040_1_1\"\n      (pin power_in line (at 0 0 0) (length 2.54)\n        (name \"IOVDD\" (effects (font (size 1.27 1.27))))\n        (number \"1\" (effects (font (size 1.27 1.27)))))\n    )\n  )\n)\n";

const FETCHED_FOOTPRINT: &str = "(footprint \"RP2040\" (version 20221018) (generator openparts)\n  (layer \"F.Cu\")\n  (pad \"1\" smd rect (at 0 0) (size 0.4 0.25) (layers \"F.Cu\"))\n)\n";

#[test]
fn extracts_the_symbol_block_from_a_fetched_library() {
    let block = extract_symbol_block(FETCHED_SYMBOL_LIB, "RP2040").unwrap();
    assert!(block.starts_with("(symbol \"RP2040\""));
    assert!(block.trim_end().ends_with(')'));
    // Balanced: same number of ( and ).
    assert_eq!(block.matches('(').count(), block.matches(')').count());
}

#[test]
fn merge_creates_a_new_library_when_none_exists() {
    let block = extract_symbol_block(FETCHED_SYMBOL_LIB, "RP2040").unwrap();
    let merged = merge_symbol_library(None, "RP2040", &block);
    assert!(merged.starts_with("(kicad_symbol_lib"));
    assert!(merged.contains("(symbol \"RP2040\""));
}

#[test]
fn merge_appends_to_an_existing_library_without_disturbing_other_symbols() {
    let existing = "(kicad_symbol_lib\n  (version 20211014)\n  (generator openparts-kicad-plugin)\n  (symbol \"OTHER_PART\"\n    (in_bom yes)\n  )\n)\n";
    let block = extract_symbol_block(FETCHED_SYMBOL_LIB, "RP2040").unwrap();
    let merged = merge_symbol_library(Some(existing), "RP2040", &block);
    assert!(merged.contains("(symbol \"OTHER_PART\""));
    assert!(merged.contains("(symbol \"RP2040\""));
}

#[test]
fn merge_is_idempotent_installing_twice_does_not_duplicate() {
    let block = extract_symbol_block(FETCHED_SYMBOL_LIB, "RP2040").unwrap();
    let once = merge_symbol_library(None, "RP2040", &block);
    let twice = merge_symbol_library(Some(&once), "RP2040", &block);
    assert_eq!(twice.matches("(symbol \"RP2040\"").count(), 1);
}

#[test]
fn patches_3d_model_into_a_footprint_with_none() {
    let patched =
        patch_footprint_3d_model(FETCHED_FOOTPRINT, "${KIPRJMOD}/openparts_3d/RP2040.step");
    assert!(patched.contains("(model \"${KIPRJMOD}/openparts_3d/RP2040.step\""));
    // Still balanced overall.
    assert_eq!(patched.matches('(').count(), patched.matches(')').count());
}

#[test]
fn patching_twice_replaces_rather_than_duplicates() {
    let once = patch_footprint_3d_model(FETCHED_FOOTPRINT, "path/a.step");
    let twice = patch_footprint_3d_model(&once, "path/b.step");
    assert_eq!(twice.matches("(model ").count(), 1);
    assert!(twice.contains("path/b.step"));
    assert!(!twice.contains("path/a.step"));
}

#[test]
fn lib_table_creates_new_file_when_none_exists() {
    let table = add_lib_table_row(
        None,
        "sym_lib_table",
        "openparts",
        "KiCad",
        "${KIPRJMOD}/openparts.kicad_sym",
    );
    assert!(table.starts_with("(sym_lib_table"));
    assert!(table.contains("(name \"openparts\")"));
}

#[test]
fn lib_table_preserves_other_libraries() {
    let existing = "(fp_lib_table\n  (lib (name \"Other\")(type \"KiCad\")(uri \"other\")(options \"\")(descr \"\"))\n)\n";
    let updated = add_lib_table_row(
        Some(existing),
        "fp_lib_table",
        "openparts",
        "KiCad",
        "${KIPRJMOD}/openparts.pretty",
    );
    assert!(updated.contains("(name \"Other\")"));
    assert!(updated.contains("(name \"openparts\")"));
}

#[test]
fn lib_table_is_idempotent() {
    let once = add_lib_table_row(None, "sym_lib_table", "openparts", "KiCad", "uri");
    let twice = add_lib_table_row(Some(&once), "sym_lib_table", "openparts", "KiCad", "uri");
    assert_eq!(twice.matches("(name \"openparts\")").count(), 1);
}

// ---------------------------------------------------------------------------
// Exact results and edge cases
// ---------------------------------------------------------------------------

#[test]
fn extracted_block_is_exactly_the_balanced_block() {
    let block = extract_symbol_block(FETCHED_SYMBOL_LIB, "RP2040").unwrap();
    let start = FETCHED_SYMBOL_LIB.find("(symbol \"RP2040\"").unwrap();
    let expected_end = FETCHED_SYMBOL_LIB.rfind("  )\n)").unwrap() + 3;
    assert_eq!(block, &FETCHED_SYMBOL_LIB[start..expected_end]);
    assert!(block.ends_with("    )\n  )"));
}

#[test]
fn extract_of_a_missing_symbol_names_the_marker() {
    match extract_symbol_block(FETCHED_SYMBOL_LIB, "STM32") {
        Err(SyncError::BlockNotFound(marker)) => assert_eq!(marker, "(symbol \"STM32\""),
        Ok(_) => panic!("a missing symbol was found"),
    }
}

#[test]
fn extract_of_an_unclosed_block_fails() {
    let err = extract_symbol_block("(kicad_symbol_lib (symbol \"A\" (pin", "A").unwrap_err();
    assert_eq!(
        err.message(),
        "could not find a balanced `(symbol \"A\"` block in the input"
    );
}

#[test]
fn extract_takes_the_first_of_two_blocks_and_handles_non_ascii() {
    let text = "(lib (symbol \"Ω\" (name \"µ\")) (symbol \"Ω\" (other)))";
    let block = extract_symbol_block(text, "Ω").unwrap();
    assert_eq!(block, "(symbol \"Ω\" (name \"µ\"))");
}

#[test]
fn merge_into_nothing_builds_the_whole_library() {
    let merged = merge_symbol_library(None, "X", "(symbol \"X\")");
    assert_eq!(
        merged,
        "(kicad_symbol_lib\n  (version 20211014)\n  (generator openparts-kicad-plugin)\n  (symbol \"X\")\n)\n"
    );
}

#[test]
fn merge_replaces_an_existing_symbol_in_place() {
    let existing = "(kicad_symbol_lib\n  (symbol \"A\" (old))\n  (symbol \"B\")\n)\n";
    let merged = merge_symbol_library(Some(existing), "A", "(symbol \"A\" (new))");
    assert_eq!(merged, "(kicad_symbol_lib\n  (symbol \"A\" (new))\n  (symbol \"B\")\n)\n");
}

#[test]
fn merge_inserts_before_the_last_paren_after_trimming_whitespace() {
    let existing = "(kicad_symbol_lib\n  (symbol \"B\")\n)\n\u{3000} \t\n";
    let merged = merge_symbol_library(Some(existing), "A", "(symbol \"A\")");
    assert_eq!(merged, "(kicad_symbol_lib\n  (symbol \"B\")\n  (symbol \"A\")\n)");
}

#[test]
fn merge_into_text_without_a_paren_appends_at_the_end() {
    let merged = merge_symbol_library(Some("junk  "), "A", "(symbol \"A\")");
    assert_eq!(merged, "junk  (symbol \"A\")\n");
}

#[test]
fn merging_twice_gives_the_same_library_for_every_start() {
    let block = extract_symbol_block(FETCHED_SYMBOL_LIB, "RP2040").unwrap();
    let existing = "(kicad_symbol_lib\n  (symbol \"OTHER\")\n)\n";
    for start in [None, Some(existing)] {
        let once = merge_symbol_library(start, "RP2040", &block);
        let twice = merge_symbol_library(Some(&once), "RP2040", &block);
        assert_eq!(twice, once);
    }
}

#[test]
fn patch_replaces_an_existing_model_block() {
    let footprint = "(footprint \"X\"\n  (pad)\n  (model \"old.step\" (offset (xyz 1 1 1)))\n  (tail)\n)\n";
    let patched = patch_footprint_3d_model(footprint, "new.step");
    assert_eq!(
        patched,
        "(footprint \"X\"\n  (pad)\n    (model \"new.step\"\n    (offset (xyz 0 0 0))\n    (scale (xyz 1 1 1))\n    (rotate (xyz 0 0 0))\n  )\n  (tail)\n)\n"
    );
}

#[test]
fn patch_adds_a_model_block_before_the_closing_paren() {
    let patched = patch_footprint_3d_model("(footprint \"X\"\n  (pad)\n)\n", "a.step");
    assert_eq!(
        patched,
        "(footprint \"X\"\n  (pad)\n  (model \"a.step\"\n    (offset (xyz 0 0 0))\n    (scale (xyz 1 1 1))\n    (rotate (xyz 0 0 0))\n  )\n)"
    );
}

#[test]
fn patching_twice_equals_patching_once_with_two_more_spaces() {
    let once_b = patch_footprint_3d_model(FETCHED_FOOTPRINT, "path/b.step");
    let twice = patch_footprint_3d_model(
        &patch_footprint_3d_model(FETCHED_FOOTPRINT, "path/a.step"),
        "path/b.step",
    );
    let anchor = FETCHED_FOOTPRINT.trim_end().rfind(')').unwrap();
    let expected = format!("{}  {}", &once_b[..anchor], &once_b[anchor..]);
    assert_eq!(twice, expected);
}

#[test]
fn lib_table_new_file_is_exact() {
    let table = add_lib_table_row(None, "fp_lib_table", "n", "t", "u");
    assert_eq!(
        table,
        "(fp_lib_table\n  (lib (name \"n\")(type \"t\")(uri \"u\")(options \"\")(descr \"\"))\n)\n"
    );
}

#[test]
fn lib_table_insert_is_exact() {
    let table = add_lib_table_row(Some("(sym_lib_table\n)\n\n"), "ignored", "n", "t", "u");
    assert_eq!(
        table,
        "(sym_lib_table\n  (lib (name \"n\")(type \"t\")(uri \"u\")(options \"\")(descr \"\"))\n)"
    );
}

#[test]
fn lib_table_that_names_the_library_is_untouched() {
    let existing = "(sym_lib_table (lib (name \"openparts\")(type \"Legacy\")))   \n";
    let table = add_lib_table_row(Some(existing), "sym_lib_table", "openparts", "KiCad", "x");
    assert_eq!(table, existing);
}

#[test]
fn balanced_footprint_stays_balanced() {
    let footprint = "(footprint (model \"x\" (a (b))) (c))";
    let patched = patch_footprint_3d_model(footprint, "p.step");
    assert_eq!(patched.matches('(').count(), patched.matches(')').count());
}

#[test]
fn merge_keeps_a_balanced_library_balanced() {
    let block = extract_symbol_block(FETCHED_SYMBOL_LIB, "RP2040").unwrap();
    let existing = "(kicad_symbol_lib\n  (symbol \"A\" (x))\n)\n";
    for start in [None, Some(existing)] {
        let merged = merge_symbol_library(start, "RP2040", &block);
        assert_eq!(merged.matches('(').count(), merged.matches(')').count());
    }
}

#[test]
fn lib_table_keeps_balance() {
    let existing = "(fp_lib_table\n  (lib (name \"Other\"))\n)\n";
    let table = add_lib_table_row(Some(existing), "fp_lib_table", "n", "KiCad", "u");
    assert_eq!(table.matches('(').count(), table.matches(')').count());
    let table = add_lib_table_row(None, "fp_lib_table", "n", "KiCad", "u");
    assert_eq!(table.matches('(').count(), table.matches(')').count());
}

#[test]
fn installing_a_symbol_twice_into_a_library_without_it_changes_nothing() {
    let existing = "(kicad_symbol_lib\n  (symbol \"OTHER\" (in_bom yes))\n)\n  ";
    let block = extract_symbol_block(FETCHED_SYMBOL_LIB, "RP2040").unwrap();
    let once = merge_symbol_library(Some(existing), "RP2040", &block);
    let twice = merge_symbol_library(Some(&once), "RP2040", &block);
    assert_eq!(once, twice);
    assert_eq!(once.matches("(symbol \"OTHER\"").count(), 1);
}

#[test]
fn reinstalling_a_part_with_nested_parentheses_in_its_name_changes_nothing() {
    let fetched = "(kicad_symbol_lib\n  (symbol \"LM358(D)\"\n    (pin (at 0 0))\n  )\n)\n";
    let block = extract_symbol_block(fetched, "LM358(D)").unwrap();
    assert!(block.starts_with("(symbol \"LM358(D)\""));
    let existing = "(kicad_symbol_lib\n  (symbol \"OTHER\")\n)\n";
    for start in [None, Some(existing)] {
        let once = merge_symbol_library(start, "LM358(D)", &block);
        let twice = merge_symbol_library(Some(&once), "LM358(D)", &block);
        assert_eq!(once, twice);
    }
}

#[test]
fn reinstalling_into_a_library_that_holds_the_part_changes_nothing_for_any_name() {
    let fetched = "(lib (symbol \"a)b\" (pin)) )";
    let block = extract_symbol_block(fetched, "a)b").unwrap();
    assert_eq!(block, "(symbol \"a)");
    let existing = "(kicad_symbol_lib\n  (symbol \"a)b\" (old))\n)\n";
    let once = merge_symbol_library(Some(existing), "a)b", &block);
    let twice = merge_symbol_library(Some(&once), "a)b", &block);
    assert_eq!(once, existing);
    assert_eq!(twice, once);
}

#[test]
fn reinstalling_a_part_named_with_spaced_paren_changes_nothing() {
    let fetched = "(lib (symbol \"x  (y\" (pin)))";
    let block = extract_symbol_block(fetched, "x  (y").unwrap();
    let existing = "(kicad_symbol_lib\n  (symbol \"OTHER\")\n)\n";
    let once = merge_symbol_library(Some(existing), "x  (y", &block);
    let twice = merge_symbol_library(Some(&once), "x  (y", &block);
    assert_eq!(twice, once);
}
