use doxygen2man::format::{len_without_formatting, normalize_type, Indirection, format_param};
use doxygen2man::model::FnParam;
use doxygen2man::text::{u32_to_string, i32_to_string, to_upper_ascii, is_all_caps, trim, trim_end};
use doxygen2man::page::{date_string, copyright_line, find_copyright, format_long_string, format_structure};
use doxygen2man::model::{StructureInfo, StructureType};

fn param(name: &str, ty: &str, desc: &str) -> FnParam {
    FnParam {
        par_name: name.to_string(),
        par_type: ty.to_string(),
        par_refid: None,
        par_args: String::new(),
        par_desc: desc.to_string(),
        par_brief: String::new(),
    }
}

#[test]
fn unformatted_length_skips_escapes() {
    assert_eq!(len_without_formatting("hello"), 5);
    assert_eq!(len_without_formatting(""), 0);
    // A backslash hides itself and the one character after it: the font
    // selector letter still counts.
    assert_eq!(len_without_formatting("\\fBbold\\fR"), 6);
    assert_eq!(len_without_formatting("a\\"), 1);
}

#[test]
fn normalize_single_pointer() {
    let (base, ind) = normalize_type("struct foo *");
    assert_eq!(base, "struct foo ");
    assert_eq!(ind, Indirection::Pointer);
}

#[test]
fn normalize_double_pointer() {
    let (base, ind) = normalize_type("char **");
    assert_eq!(base, "char ");
    assert_eq!(ind, Indirection::Double);
}

#[test]
fn normalize_function_pointer() {
    let (base, ind) = normalize_type("void (*");
    assert_eq!(base, "void ");
    assert_eq!(ind, Indirection::FuncPtr);
}

#[test]
fn normalize_plain_type_unchanged() {
    let (base, ind) = normalize_type("int");
    assert_eq!(base, "int");
    assert_eq!(ind, Indirection::Plain);
    let (base2, ind2) = normalize_type("");
    assert_eq!(base2, "");
    assert_eq!(ind2, Indirection::Plain);
}

#[test]
fn normalize_lone_star() {
    let (base, ind) = normalize_type("*");
    assert_eq!(base, "");
    assert_eq!(ind, Indirection::Pointer);
}

#[test]
fn identifier_column_is_width_plus_twelve() {
    // Two entries with different type lengths line their identifiers up
    // at the same offset once the type field is padded to the width.
    let a = format_param(&param("count", "int", ""), 8, 0, true, ",");
    let b = format_param(&param("flags", "unsigned", ""), 8, 0, true, "");
    let ia = a.find("\\fIcount").unwrap();
    let ib = b.find("\\fIflags").unwrap();
    assert_eq!(ia, ib);
    assert_eq!(ia, 8 + 9);
    assert_eq!(a, "    \\fBint       \\fIcount\\fB\\fR,\n");
    assert_eq!(b, "    \\fBunsigned  \\fIflags\\fB\\fR\n");
}

#[test]
fn short_comment_goes_inline() {
    let desc = "x".repeat(50);
    let out = format_param(&param("m", "int", &desc), 4, 10, false, ";");
    assert!(!out.contains("\\fP/*"));
    assert!(out.contains(&format!("/* {} */", desc)));
}

#[test]
fn long_comment_becomes_block() {
    let desc = "x".repeat(51);
    let out = format_param(&param("m", "int", &desc), 4, 10, false, ";");
    assert!(out.starts_with("    \\fP/*\n     *"));
    assert!(!out.contains(&format!("/* {} */", desc)));
}

#[test]
fn sixty_char_comment_wraps_to_one_block_line() {
    let desc = "aaaaaaaaa bbbbbbbbb ccccccccc ddddddddd eeeeeeeee ffffffffff";
    assert_eq!(desc.len(), 60);
    let out = format_param(&param("ptr", "struct foo *", desc), 12, 0, true, "");
    let expected = "    \\fP/*\n     * aaaaaaaaa bbbbbbbbb ccccccccc ddddddddd eeeeeeeee ffffffffff\n     */\n    \\fBstruct foo   *\\fIptr\\fB\\fR\n";
    assert_eq!(out, expected);
    assert!(out.contains("*\\fIptr\\fB"));
}

#[test]
fn long_string_keeps_literal_blocks() {
    // No paragraph break is inserted between the literal-block markers,
    // nor after the closing marker itself.
    let out = format_long_string("one\n.nf\nraw\n.fi\ntwo");
    assert_eq!(out, "one\n.PP\n\n.nf\nraw\n.fi\n\ntwo\n.PP\n");
}

#[test]
fn decimal_rendering() {
    assert_eq!(u32_to_string(0), "0");
    assert_eq!(u32_to_string(1234), "1234");
    assert_eq!(i32_to_string(-56), "-56");
    assert_eq!(i32_to_string(2021), "2021");
}

#[test]
fn ascii_upper_and_caps_test() {
    assert_eq!(to_upper_ascii("qb_loop_run"), "QB_LOOP_RUN");
    assert!(is_all_caps("MAXSIZE"));
    assert!(!is_all_caps("maxsize"));
    assert!(is_all_caps("MAX_SIZE2"));
}

#[test]
fn trimming() {
    assert_eq!(trim_end("ab  \n"), "ab");
    assert_eq!(trim("  ab  "), "ab");
    assert_eq!(trim(""), "");
}

#[test]
fn date_string_prefers_configured_date() {
    assert_eq!(date_string("2010", 2021, 7, 4), "2010");
    assert_eq!(date_string("", 2021, 7, 4), "2021-7-4");
}

#[test]
fn copyright_line_uses_year_fallback() {
    assert_eq!(
        copyright_line(2010, 0, 2021, "Red Hat Inc"),
        "Copyright (C) 2010-2021 Red Hat Inc, All rights reserved"
    );
    assert_eq!(
        copyright_line(2010, 2015, 2021, "Red Hat Inc"),
        "Copyright (C) 2010-2015 Red Hat Inc, All rights reserved"
    );
}

#[test]
fn copyright_found_in_header_lines() {
    let lines = vec![
        "/*".to_string(),
        " * Copyright (C) 2020 Red Hat, Inc.".to_string(),
        " */".to_string(),
    ];
    assert_eq!(
        find_copyright(&lines),
        Some("Copyright (C) 2020 Red Hat, Inc.".to_string())
    );
    let none = vec!["int x;".to_string()];
    assert_eq!(find_copyright(&none), None);
}

#[test]
fn structure_rendering_aligns_members() {
    let mut si = StructureInfo::new();
    si.str_type = StructureType::Struct;
    si.str_name = "sample".to_string();
    si.str_members = vec![param("x", "int", "the x"), param("name", "char **", "")];
    let out = format_structure(&si);
    let expected = "\n.nf\n\\fB\nstruct sample {\n    \\fRint      \\fIx\\fB\\fR;\\fP     /* the x */\n    \\fRchar   **\\fIname\\fB\\fR\n};\\fP\n.PP\n.fi\n";
    assert_eq!(out, expected);
}
