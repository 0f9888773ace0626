use doxygen2man::builder::read_file;
use doxygen2man::model::{Attr, Event, FnParam, ParseError, StructureInfo, StructureType};
use doxygen2man::page::{man_page_text, man_pages_text, ascii_pages_text, FormatOpts};
use doxygen2man::reader::parse_events;
use doxygen2man::resolver::{resolve_structures, structs_to_fetch};

fn start(name: &str, attrs: &[(&str, &str)]) -> Event {
    Event::Start {
        name: name.to_string(),
        attrs: attrs
            .iter()
            .map(|(n, v)| Attr { name: n.to_string(), value: v.to_string() })
            .collect(),
    }
}

fn text(t: &str) -> Event {
    Event::Text { text: t.to_string() }
}

fn end(name: &str) -> Event {
    Event::End { name: name.to_string() }
}

fn opts() -> FormatOpts {
    FormatOpts {
        print_params: true,
        print_general: false,
        man_section: 3,
        header_prefix: String::new(),
        headerfile: "test.h".to_string(),
        package_name: "Package".to_string(),
        header: "Programmer's Manual".to_string(),
    }
}

fn element(name: &str, content: &str) -> Vec<Event> {
    vec![start(name, &[]), text(content), end(name)]
}

fn simple_function_events() -> Vec<Event> {
    let mut evs = vec![start("memberdef", &[("kind", "function")])];
    evs.extend(element("type", "int"));
    evs.extend(element("definition", "int foo"));
    evs.extend(element("name", "foo"));
    evs.push(start("param", &[]));
    evs.extend(element("type", "int"));
    evs.extend(element("declname", "count"));
    evs.push(end("param"));
    evs.push(end("memberdef"));
    evs.push(Event::Eof);
    evs
}

#[test]
fn single_plain_parameter_page() {
    // A single non-pointer `int count` parameter with an empty
    // description: the synopsis line carries no inline comment and the
    // PARAMETERS section is suppressed.
    let events = simple_function_events();
    let (functions, structures, _header) = read_file(&events, "test.h").unwrap();
    assert_eq!(functions.len(), 2);
    assert_eq!(functions[0].fn_name, "foo");
    assert_eq!(functions[1].fn_name, "test.h");
    let fetched = Vec::new();
    let resolved = resolve_structures(&structures, fetched);
    let page = man_page_text(&opts(), "2010", &functions[0], &functions, &resolved, "").unwrap();
    let expected = ".\\\"  Automatically generated man page, do not edit\n\
.TH FOO 3 2010 \"Package\" \"Programmer's Manual\"\n\
.SH NAME\n.PP\n\
foo\n\
.SH SYNOPSIS\n.PP\n.nf\n\
.B #include <test.h>\n\
.sp\n\\fBint foo\\fP(\n    \\fBint  \\fIcount\\fB\\fR\n);\n.fi\n\
.SH SEE ALSO\n.PP\n.nh\n.ad l\n\
\\fItest.h\\fP(3)\n";
    assert_eq!(page, expected);
    assert!(!page.contains(".SH PARAMETERS"));
    assert!(!page.contains("/*"));
}

fn described_function_events() -> Vec<Event> {
    let mut evs = vec![start("memberdef", &[("kind", "function")])];
    evs.extend(element("type", "int"));
    evs.extend(element("definition", "int foo"));
    evs.extend(element("name", "foo"));
    evs.push(start("param", &[]));
    evs.extend(element("type", "int"));
    evs.extend(element("declname", "count"));
    evs.push(end("param"));
    evs.push(start("detaileddescription", &[]));
    evs.extend(element("para", "Does things."));
    evs.push(start("simplesect", &[("kind", "return")]));
    evs.push(text("Returns zero"));
    evs.push(end("simplesect"));
    evs.push(start("parameterlist", &[("kind", "param")]));
    evs.push(start("parameteritem", &[]));
    evs.extend(element("parameternamelist", "count"));
    evs.extend(element("parameterdescription", "the count value"));
    evs.push(end("parameteritem"));
    evs.push(end("parameterlist"));
    evs.push(start("parameterlist", &[("kind", "retval")]));
    evs.push(start("parameteritem", &[]));
    evs.extend(element("parameternamelist", "-EINVAL"));
    evs.extend(element("parameterdescription", "bad args"));
    evs.push(end("parameteritem"));
    evs.push(end("parameterlist"));
    evs.push(end("detaileddescription"));
    evs.push(end("memberdef"));
    evs.push(Event::Eof);
    evs
}

#[test]
fn descriptions_and_retvals_reach_their_sections() {
    let events = described_function_events();
    let (functions, structures, _header) = read_file(&events, "test.h").unwrap();
    assert_eq!(functions[0].fn_args.len(), 1);
    assert_eq!(functions[0].fn_args[0].par_desc, "the count value");
    let resolved = resolve_structures(&structures, Vec::new());
    let page = man_page_text(&opts(), "2010", &functions[0], &functions, &resolved, "").unwrap();
    assert!(page.contains(".SH PARAMETERS\n.PP\n.TP\n\\fBcount\\fP the count value\n"));
    assert!(page.contains(".SH DESCRIPTION\n.PP\nDoes things.\n.PP\n"));
    assert!(page.contains(
        ".SH RETURN VALUE\n.PP\nReturns zero\n.br\n.TP\n\\fB-EINVAL\\fR bad args\n.PP\n"
    ));
}

fn referencing_function_events(fn_name: &str, refid: &str, twice: bool) -> Vec<Event> {
    let mut evs = vec![start("memberdef", &[("kind", "function")])];
    evs.extend(element("type", "int"));
    evs.extend(element("definition", &format!("int {}", fn_name)));
    evs.extend(element("name", fn_name));
    let n = if twice { 2 } else { 1 };
    for k in 0..n {
        evs.push(start("param", &[]));
        evs.push(start("type", &[]));
        evs.push(start("ref", &[("refid", refid)]));
        evs.push(text("struct foo"));
        evs.push(end("ref"));
        evs.push(text(" *"));
        evs.push(end("type"));
        evs.extend(element("declname", &format!("arg{}", k)));
        evs.push(end("param"));
    }
    evs.push(end("memberdef"));
    evs
}

#[test]
fn unresolved_placeholder_is_dropped() {
    // A reference identifier registered as a placeholder and never
    // matched by the resolver is absent from the resolved collection, and
    // the page omits the structures section entirely.
    let mut events = referencing_function_events("foo", "structfoo", false);
    events.push(Event::Eof);
    let (functions, structures, _header) = read_file(&events, "test.h").unwrap();
    assert_eq!(functions[0].fn_refids, vec!["structfoo".to_string()]);
    assert!(structures.get("structfoo").is_some());
    let to_fetch = structs_to_fetch(&structures);
    assert_eq!(to_fetch, vec!["structfoo".to_string()]);
    // The auxiliary source is missing: the fetch came back empty.
    let resolved = resolve_structures(&structures, vec![None]);
    assert!(resolved.get("structfoo").is_none());
    let page = man_page_text(&opts(), "2010", &functions[0], &functions, &resolved, "").unwrap();
    assert!(!page.contains(".SH STRUCTURES"));
}

#[test]
fn shared_structure_rendered_once_per_page() {
    // Two documents reference the same structure identifier: each page
    // renders it once, and a document whose two parameters point at it
    // still lists the identifier exactly once.
    let mut events = referencing_function_events("foo", "structfoo", true);
    events.extend(referencing_function_events("bar", "structfoo", false));
    events.push(Event::Eof);
    let (functions, structures, _header) = read_file(&events, "test.h").unwrap();
    assert_eq!(functions[0].fn_refids, vec!["structfoo".to_string()]);
    assert_eq!(functions[1].fn_refids, vec!["structfoo".to_string()]);
    let mut info = StructureInfo::new();
    info.str_type = StructureType::Struct;
    info.str_name = "foo".to_string();
    info.str_members = vec![FnParam {
        par_name: "x".to_string(),
        par_type: "int".to_string(),
        par_refid: None,
        par_args: String::new(),
        par_desc: String::new(),
        par_brief: String::new(),
    }];
    let resolved =
        resolve_structures(&structures, vec![Some(("structfoo".to_string(), info))]);
    assert!(resolved.get("structfoo").is_some());
    for f in &functions[0..2] {
        let page = man_page_text(&opts(), "2010", f, &functions, &resolved, "").unwrap();
        assert_eq!(page.matches(".SH STRUCTURES").count(), 1);
        assert_eq!(page.matches("struct foo {").count(), 1);
    }
}

#[test]
fn refids_are_sorted_and_deduplicated() {
    let mut evs = vec![start("memberdef", &[("kind", "function")])];
    evs.extend(element("name", "foo"));
    for refid in ["zz", "aa", "zz"] {
        evs.push(start("param", &[]));
        evs.push(start("type", &[]));
        evs.push(start("ref", &[("refid", refid)]));
        evs.push(text("t"));
        evs.push(end("ref"));
        evs.push(end("type"));
        evs.push(end("param"));
    }
    evs.push(end("memberdef"));
    evs.push(Event::Eof);
    let (functions, _structures, _header) = read_file(&evs, "test.h").unwrap();
    assert_eq!(functions[0].fn_refids, vec!["aa".to_string(), "zz".to_string()]);
}

fn defines_events() -> Vec<Event> {
    let mut evs = vec![start("memberdef", &[("kind", "define")])];
    evs.extend(element("name", "maxsize"));
    evs.extend(element("initializer", "42"));
    evs.extend(element("briefdescription", "Max size."));
    evs.push(end("memberdef"));
    evs.push(start("memberdef", &[("kind", "define")]));
    evs.extend(element("name", "MAXSIZE"));
    evs.extend(element("initializer", "42"));
    evs.extend(element("briefdescription", "Max size."));
    evs.push(end("memberdef"));
    evs.push(Event::Eof);
    evs
}

#[test]
fn lower_case_define_is_excluded() {
    // Both defines are parsed; only the all-caps one reaches the defines
    // section of the whole-file page.
    let events = defines_events();
    let (functions, structures, _header) = read_file(&events, "test.h").unwrap();
    let general = functions.last().unwrap();
    assert_eq!(general.fn_defines.len(), 2);
    let resolved = resolve_structures(&structures, Vec::new());
    let mut o = opts();
    o.print_general = true;
    let page = man_page_text(&o, "2010", general, &functions, &resolved, "").unwrap();
    assert!(page.contains(".SH DEFINES"));
    assert!(page.contains("#define MAXSIZE 42"));
    assert!(!page.contains("maxsize"));
}

#[test]
fn general_page_suppressed_unless_requested() {
    let events = defines_events();
    let (functions, structures, _header) = read_file(&events, "test.h").unwrap();
    let resolved = resolve_structures(&structures, Vec::new());
    let general = functions.last().unwrap();
    assert!(man_page_text(&opts(), "2010", general, &functions, &resolved, "").is_none());
    let pages = man_pages_text(&opts(), "2010", &functions, &resolved, "");
    assert_eq!(pages.len(), 0);
    let mut o = opts();
    o.print_general = true;
    let pages2 = man_pages_text(&o, "2010", &functions, &resolved, "");
    assert_eq!(pages2.len(), 1);
    assert_eq!(pages2[0].0, "test.h");
}

#[test]
fn pipeline_is_deterministic() {
    // Byte-identical input gives byte-identical output, run twice from
    // scratch.
    let run = || {
        let events = described_function_events();
        let (functions, structures, _header) = read_file(&events, "test.h").unwrap();
        let resolved = resolve_structures(&structures, Vec::new());
        let pages = man_pages_text(&opts(), "2010", &functions, &resolved, "copyright here");
        let ascii = ascii_pages_text(&functions, &resolved);
        (pages, ascii)
    };
    let (p1, a1) = run();
    let (p2, a2) = run();
    assert_eq!(p1, p2);
    assert_eq!(a1, a2);
}

#[test]
fn truncated_stream_is_reported() {
    let events = vec![start("memberdef", &[("kind", "function")]), start("name", &[])];
    assert_eq!(read_file(&events, "test.h").unwrap_err(), ParseError::Truncated);
}

#[test]
fn copyright_section_appended() {
    let events = simple_function_events();
    let (functions, structures, _header) = read_file(&events, "test.h").unwrap();
    let resolved = resolve_structures(&structures, Vec::new());
    let page = man_page_text(&opts(), "2010", &functions[0], &functions, &resolved, "Copyright (C) 2020 Red Hat, Inc.").unwrap();
    assert!(page.ends_with(".SH COPYRIGHT\n.PP\nCopyright (C) 2020 Red Hat, Inc.\n"));
}

#[test]
fn events_come_from_markup_bytes() {
    // Through the real pull parser: the wrapper must hand back structural
    // events, not the bytes themselves.
    let events = parse_events(b"<a href='x'>hi</a>".to_vec()).unwrap();
    assert_eq!(events.len(), 4);
    match &events[0] {
        Event::Start { name, attrs } => {
            assert_eq!(name, "a");
            assert_eq!(attrs.len(), 1);
            assert_eq!(attrs[0].name, "href");
            assert_eq!(attrs[0].value, "x");
        }
        _ => panic!("expected an element-open event"),
    }
    match &events[1] {
        Event::Text { text } => assert_eq!(text, "hi"),
        _ => panic!("expected character data"),
    }
    assert!(matches!(&events[2], Event::End { name } if name == "a"));
    assert!(matches!(&events[3], Event::Eof));
}

#[test]
fn unreadable_markup_is_a_read_failure() {
    assert_eq!(parse_events(b"<a><b></b>".to_vec()).unwrap_err(), ParseError::ReadFailed);
    assert_eq!(parse_events(b"not markup at all".to_vec()).unwrap_err(), ParseError::ReadFailed);
}

#[test]
fn whole_pipeline_from_bytes() {
    let xml = b"<?xml version='1.0'?>\n\
<doxygen>\n\
  <compounddef>\n\
    <compoundname>qb.h</compoundname>\n\
    <memberdef kind='function'>\n\
      <type>int</type>\n\
      <definition>int qb_run</definition>\n\
      <name>qb_run</name>\n\
      <param><type>int</type><declname>n</declname></param>\n\
    </memberdef>\n\
  </compounddef>\n\
</doxygen>\n";
    let events = parse_events(xml.to_vec()).unwrap();
    let (functions, structures, header) = read_file(&events, "unknown.h").unwrap();
    assert_eq!(header, "qb.h");
    assert_eq!(functions[0].fn_name, "qb_run");
    let resolved = resolve_structures(&structures, Vec::new());
    let mut o = opts();
    o.headerfile = header;
    let pages = man_pages_text(&o, "2010", &functions, &resolved, "");
    assert_eq!(pages.len(), 1);
    assert_eq!(pages[0].0, "qb_run");
    assert!(pages[0].1.contains(".TH QB_RUN 3 2010"));
    assert!(pages[0].1.contains(".B #include <qb.h>"));
}

#[test]
fn last_printed_cross_reference_undelimited() {
    // On the whole-file page the only cross-reference is the function, and
    // it is the last entry printed: it carries no trailing comma.
    let events = simple_function_events();
    let (functions, structures, _header) = read_file(&events, "test.h").unwrap();
    let resolved = resolve_structures(&structures, Vec::new());
    let mut o = opts();
    o.print_general = true;
    let general = functions.last().unwrap();
    let page = man_page_text(&o, "2010", general, &functions, &resolved, "").unwrap();
    assert!(page.contains(".SH SEE ALSO\n.PP\n.nh\n.ad l\n\\fIfoo\\fP(3)\n"));
    assert!(!page.contains("\\fIfoo\\fP(3), "));
}

#[test]
fn inline_markup_becomes_escapes() {
    let mut evs = vec![start("memberdef", &[("kind", "function")])];
    evs.extend(element("type", "int"));
    evs.extend(element("definition", "int foo"));
    evs.extend(element("name", "foo"));
    evs.push(start("detaileddescription", &[]));
    evs.push(start("para", &[]));
    evs.push(text("See "));
    evs.push(start("emphasis", &[]));
    evs.push(text("this"));
    evs.push(end("emphasis"));
    evs.push(start("programlisting", &[]));
    evs.push(start("codeline", &[]));
    evs.push(text("x = 1;"));
    evs.push(end("codeline"));
    evs.push(end("programlisting"));
    evs.push(end("para"));
    evs.push(end("detaileddescription"));
    evs.push(end("memberdef"));
    evs.push(Event::Eof);
    let (functions, structures, _header) = read_file(&evs, "test.h").unwrap();
    assert_eq!(functions[0].fn_detail, "See \\fBthis\\fR\n.nf\nx = 1;\n.fi\n");
    let resolved = resolve_structures(&structures, Vec::new());
    let page = man_page_text(&opts(), "2010", &functions[0], &functions, &resolved, "").unwrap();
    assert!(page.contains(".SH DESCRIPTION\n.PP\nSee \\fBthis\\fR\n.PP\n\n.nf\nx = 1;\n.fi\n\n"));
}

#[test]
fn enums_resolve_without_a_fetch() {
    let mut evs = vec![start("memberdef", &[("kind", "enum"), ("id", "enumfoo")])];
    evs.extend(element("name", "colors"));
    evs.push(start("enumvalue", &[]));
    evs.extend(element("name", "RED"));
    evs.push(end("enumvalue"));
    evs.push(end("memberdef"));
    evs.extend(referencing_function_events("foo", "enumfoo", false));
    evs.push(Event::Eof);
    let (functions, structures, _header) = read_file(&evs, "test.h").unwrap();
    assert!(structs_to_fetch(&structures).is_empty());
    let resolved = resolve_structures(&structures, Vec::new());
    assert!(resolved.get("enumfoo").is_some());
    let page = man_page_text(&opts(), "2010", &functions[0], &functions, &resolved, "").unwrap();
    assert!(page.contains("enum colors {\n"));
    assert!(page.contains("\\fIRED\\fB"));
}

#[test]
fn structure_file_read_under_its_own_identifier() {
    let mut evs = vec![start("compounddef", &[("id", "structfoo")])];
    evs.extend(element("compoundname", "foo"));
    evs.push(start("memberdef", &[]));
    evs.extend(element("type", "int"));
    evs.extend(element("name", "x"));
    evs.push(end("memberdef"));
    evs.push(end("compounddef"));
    evs.push(Event::Eof);
    let (refid, sinfo) = doxygen2man::builder::read_structure_file(&evs).unwrap();
    assert_eq!(refid, "structfoo");
    assert_eq!(sinfo.str_type, StructureType::Struct);
    assert_eq!(sinfo.str_name, "foo");
    assert_eq!(sinfo.str_members.len(), 1);
    assert_eq!(sinfo.str_members[0].par_name, "x");
    assert_eq!(sinfo.str_members[0].par_type, "int");
}
