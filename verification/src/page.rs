//! Whole-artifact emission: description reflow with literal-block
//! passthrough, structure/enum rendering, and the assembled man page.
use vstd::prelude::*;
use crate::model::{FnParam, StructureInfo, StructureType, ReturnVal, HashDefine, FunctionInfo, StructMap, entries_lookup};
use crate::format::{format_param_spec, format_param, word_views, MAX_PRINT_PARAM_LEN};
use crate::text::{all_caps, is_all_caps, upper_spec, dec_str, dec_str_signed};
use crate::text::starts_with_spec;
use crate::text::starts_with;

verus! {

/// The index of the first line break, or the length when there is none.
pub open spec fn first_nl(s: Seq<char>) -> nat
    decreases s.len(),
{
    if s.len() == 0 {
        0
    } else if s[0] == '\n' {
        0
    } else {
        1 + first_nl(s.drop_first())
    }
}

proof fn lemma_first_nl_is(s: Seq<char>, i: int)
    requires
        0 <= i <= s.len(),
        forall|j: int| 0 <= j < i ==> s[j] != '\n',
        i < s.len() ==> s[i] == '\n',
    ensures
        first_nl(s) == i,
    decreases i,
{
    if i > 0 {
        lemma_first_nl_is(s.drop_first(), i - 1);
    }
}

/// A line with a trailing carriage return dropped, as the line iterator
/// hands lines out.
pub open spec fn strip_cr(l: Seq<char>) -> Seq<char> {
    if l.len() > 0 && l.last() == '\r' {
        l.drop_last()
    } else {
        l
    }
}

/// The lines of a string, split at line breaks; no empty final line is
/// produced when the string ends with a break.
pub open spec fn split_lines_spec(s: Seq<char>) -> Seq<Seq<char>>
    decreases s.len(),
{
    if s.len() == 0 {
        Seq::empty()
    } else {
        let i = first_nl(s) as int;
        if i >= s.len() {
            seq![strip_cr(s)]
        } else {
            seq![strip_cr(s.take(i))] + split_lines_spec(s.skip(i + 1))
        }
    }
}

/// Splits a string into its lines.
pub fn split_lines(s: &str) -> (r: Vec<String>)
    ensures
        word_views(r@) == split_lines_spec(s@),
{
    let len = s.unicode_len();
    let mut out: Vec<String> = Vec::new();
    let mut start: usize = 0;
    proof {
        assert(s@.skip(0) =~= s@);
        assert(word_views(out@) + split_lines_spec(s@) =~= split_lines_spec(s@));
    }
    while start < len
        invariant
            start <= len,
            len == s@.len(),
            word_views(out@) + split_lines_spec(s@.skip(start as int)) == split_lines_spec(s@),
        decreases len - start,
    {
        let ghost rest = s@.skip(start as int);
        let mut j = start;
        while j < len && s.get_char(j) != '\n'
            invariant
                start <= j <= len,
                len == s@.len(),
                forall|k: int| start <= k < j ==> s@[k] != '\n',
            decreases len - j,
        {
            j = j + 1;
        }
        proof {
            assert(forall|k: int| 0 <= k < j - start ==> rest[k] != '\n');
            lemma_first_nl_is(rest, j - start);
        }
        let end = if j > start && s.get_char(j - 1) == '\r' {
            j - 1
        } else {
            j
        };
        let line = s.substring_char(start, end);
        let ghost pre_out = out@;
        out.push(line.to_owned());
        proof {
            assert(word_views(out@) =~= word_views(pre_out).push(line@));
            assert(rest.take(j - start) =~= s@.subrange(start as int, j as int));
            assert(strip_cr(rest.take(j - start)) =~= s@.subrange(start as int, end as int));
            if j == len {
                assert(rest.take(j - start) =~= rest);
                assert(split_lines_spec(rest) =~= seq![strip_cr(rest)]);
            }
        }
        if j < len {
            proof {
                assert(rest.skip(j - start + 1) =~= s@.skip(j + 1));
                assert(word_views(pre_out).push(strip_cr(rest.take(j - start)))
                    + split_lines_spec(s@.skip(j + 1)) =~= word_views(pre_out) + (seq![
                    strip_cr(rest.take(j - start)),
                ] + split_lines_spec(rest.skip(j - start + 1))));
            }
            start = j + 1;
        } else {
            proof {
                assert(word_views(pre_out).push(strip_cr(rest)) =~= word_views(pre_out) + seq![
                    strip_cr(rest),
                ]);
                assert(s@.skip(len as int) =~= Seq::<char>::empty());
                assert(word_views(out@) + split_lines_spec(s@.skip(len as int)) =~= word_views(
                    out@,
                ));
            }
            start = len;
        }
    }
    proof {
        assert(s@.skip(len as int) =~= Seq::<char>::empty());
        assert(word_views(out@) + split_lines_spec(s@.skip(len as int)) =~= word_views(out@));
    }
    out
}

/// Reflows one line of a long description: a paragraph break follows every
/// line except inside a literal block, whose `.nf`/`.fi` markers are passed
/// through with a blank line beside each.
pub open spec fn long_string_lines(lines: Seq<Seq<char>>, in_nf: bool) -> Seq<char>
    decreases lines.len(),
{
    if lines.len() == 0 {
        Seq::empty()
    } else {
        let l = lines[0];
        let starts_nf = starts_with_spec(l, ".nf"@);
        let nf1 = in_nf || starts_nf;
        let starts_fi = starts_with_spec(l, ".fi"@);
        let pre = if starts_nf {
            seq!['\n']
        } else {
            Seq::<char>::empty()
        };
        let brk = if !nf1 {
            ".PP\n"@
        } else {
            Seq::<char>::empty()
        };
        let post = if starts_fi {
            seq!['\n']
        } else {
            Seq::<char>::empty()
        };
        let nf2 = if starts_fi {
            false
        } else {
            nf1
        };
        pre + l + seq!['\n'] + brk + post + long_string_lines(lines.drop_first(), nf2)
    }
}

/// A long description reflowed for the page body.
pub open spec fn long_string_spec(s: Seq<char>) -> Seq<char> {
    long_string_lines(split_lines_spec(s), false)
}

/// Format a long description string, leaving literal blocks alone.
pub fn format_long_string(s: &str) -> (r: String)
    ensures
        r@ == long_string_spec(s@),
{
    let lines = split_lines(s);
    let ghost all = word_views(lines@);
    let mut out = String::new();
    let mut in_nf = false;
    let mut i: usize = 0;
    proof {
        assert(all.skip(0) =~= all);
        assert(Seq::<char>::empty() + long_string_lines(all, false) =~= long_string_lines(
            all,
            false,
        ));
    }
    while i < lines.len()
        invariant
            i <= lines@.len(),
            all == word_views(lines@),
            out@ + long_string_lines(all.skip(i as int), in_nf) == long_string_lines(all, false),
        decreases lines@.len() - i,
    {
        proof {
            assert(all.skip(i as int).drop_first() =~= all.skip(i + 1));
            assert(all.skip(i as int)[0] == all[i as int]);
            assert(all[i as int] == lines@[i as int]@);
        }
        let l = &lines[i];
        if starts_with(l.as_str(), ".nf") {
            push_newline(&mut out);
            in_nf = true;
        }
        out.append(l.as_str());
        push_newline(&mut out);
        if !in_nf {
            out.append(".PP\n");
        }
        if starts_with(l.as_str(), ".fi") {
            push_newline(&mut out);
            in_nf = false;
        }
        i = i + 1;
    }
    proof {
        assert(all.skip(lines@.len() as int) =~= Seq::<Seq<char>>::empty());
    }
    out
}

fn push_newline(out: &mut String)
    ensures
        final(out)@ == old(out)@ + seq!['\n'],
{
    crate::text::push_char(out, '\n');
}

/// The widest declared type among the entries.
pub open spec fn max_type_len(ms: Seq<FnParam>) -> int
    decreases ms.len(),
{
    if ms.len() == 0 {
        0
    } else {
        let rest = max_type_len(ms.drop_last());
        if ms.last().par_type@.len() > rest {
            ms.last().par_type@.len() as int
        } else {
            rest
        }
    }
}

/// The widest name together with its args suffix among the entries.
pub open spec fn max_name_len(ms: Seq<FnParam>) -> int
    decreases ms.len(),
{
    if ms.len() == 0 {
        0
    } else {
        let rest = max_name_len(ms.drop_last());
        let own = ms.last().par_name@.len() + ms.last().par_args@.len();
        if own > rest {
            own as int
        } else {
            rest
        }
    }
}

pub proof fn lemma_max_type_bound(ms: Seq<FnParam>, j: int)
    requires
        0 <= j < ms.len(),
    ensures
        max_type_len(ms) >= 0,
        ms[j].par_type@.len() <= max_type_len(ms),
    decreases ms.len(),
{
    if j < ms.len() - 1 {
        lemma_max_type_bound(ms.drop_last(), j);
    } else if ms.len() > 1 {
        lemma_max_type_bound(ms.drop_last(), 0);
    }
}

pub proof fn lemma_max_name_bound(ms: Seq<FnParam>, j: int)
    requires
        0 <= j < ms.len(),
    ensures
        max_name_len(ms) >= 0,
        ms[j].par_name@.len() + ms[j].par_args@.len() <= max_name_len(ms),
    decreases ms.len(),
{
    if j < ms.len() - 1 {
        lemma_max_name_bound(ms.drop_last(), j);
    } else if ms.len() > 1 {
        lemma_max_name_bound(ms.drop_last(), 0);
    }
}

/// Every entry is small enough to measure: a machine limit, not a rule.
pub open spec fn members_measurable(ms: Seq<FnParam>) -> bool {
    forall|j: int|
        0 <= j < ms.len() ==> (#[trigger] ms[j]).par_name@.len() + ms[j].par_args@.len()
            < usize::MAX
}

proof fn lemma_max_name_small(ms: Seq<FnParam>)
    requires
        members_measurable(ms),
    ensures
        max_name_len(ms) < usize::MAX,
    decreases ms.len(),
{
    if ms.len() > 0 {
        assert forall|j: int| 0 <= j < ms.drop_last().len() implies (#[trigger] ms.drop_last()[j]).par_name@.len()
            + ms.drop_last()[j].par_args@.len() < usize::MAX by {
            assert(ms.drop_last()[j] == ms[j]);
        }
        lemma_max_name_small(ms.drop_last());
        assert(ms.last() == ms[ms.len() - 1]);
    }
}

fn compute_max_type_len(ms: &Vec<FnParam>) -> (r: usize)
    ensures
        r == max_type_len(ms@),
{
    let mut m: usize = 0;
    let mut i: usize = 0;
    proof {
        assert(ms@.take(0) =~= Seq::<FnParam>::empty());
    }
    while i < ms.len()
        invariant
            i <= ms@.len(),
            m == max_type_len(ms@.take(i as int)),
        decreases ms@.len() - i,
    {
        proof {
            assert(ms@.take(i + 1).drop_last() =~= ms@.take(i as int));
            assert(ms@.take(i + 1).last() == ms@[i as int]);
        }
        let tl = ms[i].par_type.unicode_len();
        if tl > m {
            m = tl;
        }
        i = i + 1;
    }
    proof {
        assert(ms@.take(ms@.len() as int) =~= ms@);
    }
    m
}

fn compute_max_name_len(ms: &Vec<FnParam>) -> (r: usize)
    requires
        members_measurable(ms@),
    ensures
        r == max_name_len(ms@),
{
    let mut m: usize = 0;
    let mut i: usize = 0;
    proof {
        assert(ms@.take(0) =~= Seq::<FnParam>::empty());
    }
    while i < ms.len()
        invariant
            i <= ms@.len(),
            members_measurable(ms@),
            m == max_name_len(ms@.take(i as int)),
        decreases ms@.len() - i,
    {
        proof {
            assert(ms@.take(i + 1).drop_last() =~= ms@.take(i as int));
            assert(ms@.take(i + 1).last() == ms@[i as int]);
        }
        let nl = ms[i].par_name.unicode_len() + ms[i].par_args.unicode_len();
        if nl > m {
            m = nl;
        }
        i = i + 1;
    }
    proof {
        assert(ms@.take(ms@.len() as int) =~= ms@);
    }
    m
}

/// The member list, each entry through the aligned-line format, delimited
/// by semicolons with the last entry bare.
pub open spec fn members_spec(ms: Seq<FnParam>, tw: int, nw: int) -> Seq<char>
    decreases ms.len(),
{
    if ms.len() == 0 {
        Seq::empty()
    } else {
        let delim = if ms.len() == 1 {
            ""@
        } else {
            ";"@
        };
        format_param_spec(ms[0], tw, nw, false, delim) + members_spec(ms.drop_first(), tw, nw)
    }
}

/// A structure or enum rendered as a literal block: optional brief and
/// description, the kind header, the aligned member list, and the closing
/// brace.
pub open spec fn structure_spec(si: StructureInfo) -> Seq<char> {
    let tw = max_type_len(si.str_members@);
    let nw = max_name_len(si.str_members@);
    let brief = if si.str_brief@.len() > 0 {
        si.str_brief@ + seq!['\n']
    } else {
        Seq::<char>::empty()
    };
    let desc = if si.str_description@.len() > 0 {
        si.str_description@ + seq!['\n']
    } else {
        Seq::<char>::empty()
    };
    let kind = match si.str_type {
        StructureType::Enum => "enum "@,
        StructureType::Struct => "struct "@,
        StructureType::Unknown => "??? "@,
    };
    brief + desc + "\n.nf\n\\fB\n"@ + kind + si.str_name@ + " {\n"@ + members_spec(
        si.str_members@,
        tw,
        nw,
    ) + "};\\fP\n.PP\n.fi\n"@
}

/// Print a structure or enum.
pub fn format_structure(si: &StructureInfo) -> (r: String)
    requires
        members_measurable(si.str_members@),
    ensures
        r@ == structure_spec(*si),
{
    let mut out = String::new();
    if si.str_brief.unicode_len() > 0 {
        out.append(si.str_brief.as_str());
        push_newline(&mut out);
    }
    if si.str_description.unicode_len() > 0 {
        out.append(si.str_description.as_str());
        push_newline(&mut out);
    }
    let max_param_type_length = compute_max_type_len(&si.str_members);
    let max_param_name_length = compute_max_name_len(&si.str_members);
    proof {
        lemma_max_name_small(si.str_members@);
    }
    out.append("\n.nf\n\\fB\n");
    match si.str_type {
        StructureType::Enum => out.append("enum "),
        StructureType::Struct => out.append("struct "),
        StructureType::Unknown => out.append("??? "),
    }
    out.append(si.str_name.as_str());
    out.append(" {\n");
    let ghost ms = si.str_members@;
    let ghost header = out@;
    let mut i: usize = 0;
    proof {
        assert(ms.skip(0) =~= ms);
    }
    while i < si.str_members.len()
        invariant
            i <= ms.len(),
            ms == si.str_members@,
            members_measurable(ms),
            max_param_type_length == max_type_len(ms),
            max_param_name_length == max_name_len(ms),
            max_param_name_length < usize::MAX,
            out@ + members_spec(ms.skip(i as int), max_param_type_length as int,
                max_param_name_length as int) == header + members_spec(
                ms,
                max_param_type_length as int,
                max_param_name_length as int,
            ),
        decreases ms.len() - i,
    {
        proof {
            assert(ms.skip(i as int).drop_first() =~= ms.skip(i + 1));
            assert(ms.skip(i as int)[0] == ms[i as int]);
            lemma_max_name_bound(ms, i as int);
        }
        let p = &si.str_members[i];
        let last = i + 1 == si.str_members.len();
        let delim = if last {
            ""
        } else {
            ";"
        };
        proof {
            reveal_strlit("");
            reveal_strlit(";");
            assert(delim@.len() <= 1);
        }
        let piece = format_param(
            p,
            max_param_type_length,
            max_param_name_length,
            false,
            delim,
        );
        out.append(piece.as_str());
        i = i + 1;
    }
    proof {
        assert(ms.skip(ms.len() as int) =~= Seq::<FnParam>::empty());
    }
    out.append("};\\fP\n.PP\n.fi\n");
    out
}

/// The resolved formatting options the driver hands the engine.
pub struct FormatOpts {
    /// Emit the PARAMETERS section.
    pub print_params: bool,
    /// Emit the synthetic whole-file page too.
    pub print_general: bool,
    /// The manual section number.
    pub man_section: u32,
    /// Prefix for the include file name, e.g. `qb/`.
    pub header_prefix: String,
    /// The include file name.
    pub headerfile: String,
    /// Name of the package for these pages.
    pub package_name: String,
    /// The page header text.
    pub header: String,
}

/// The widest declared parameter type, ignoring any that is already past
/// the clipping threshold, beyond which alignment is abandoned.
pub open spec fn clipped_max_type_len(ps: Seq<FnParam>) -> int
    decreases ps.len(),
{
    if ps.len() == 0 {
        0
    } else {
        let rest = clipped_max_type_len(ps.drop_last());
        let own = ps.last().par_type@.len();
        if own < MAX_PRINT_PARAM_LEN && own > rest {
            own as int
        } else {
            rest
        }
    }
}

/// How many parameters carry both a type and a description.
pub open spec fn count_described(ps: Seq<FnParam>) -> int
    decreases ps.len(),
{
    if ps.len() == 0 {
        0int
    } else {
        count_described(ps.drop_last()) + if ps.last().par_desc@.len() > 0
            && ps.last().par_type@.len() > 0 {
            1int
        } else {
            0int
        }
    }
}

fn compute_clipped_max_type_len(ps: &Vec<FnParam>) -> (r: usize)
    ensures
        r == clipped_max_type_len(ps@),
{
    let mut m: usize = 0;
    let mut i: usize = 0;
    proof {
        assert(ps@.take(0) =~= Seq::<FnParam>::empty());
    }
    while i < ps.len()
        invariant
            i <= ps@.len(),
            m == clipped_max_type_len(ps@.take(i as int)),
        decreases ps@.len() - i,
    {
        proof {
            assert(ps@.take(i + 1).drop_last() =~= ps@.take(i as int));
            assert(ps@.take(i + 1).last() == ps@[i as int]);
        }
        let tl = ps[i].par_type.unicode_len();
        if tl < MAX_PRINT_PARAM_LEN && tl > m {
            m = tl;
        }
        i = i + 1;
    }
    proof {
        assert(ps@.take(ps@.len() as int) =~= ps@);
    }
    m
}

fn compute_count_described(ps: &Vec<FnParam>) -> (r: usize)
    ensures
        r == count_described(ps@),
{
    let mut n: usize = 0;
    let mut i: usize = 0;
    proof {
        assert(ps@.take(0) =~= Seq::<FnParam>::empty());
    }
    while i < ps.len()
        invariant
            i <= ps@.len(),
            n == count_described(ps@.take(i as int)),
            n <= i,
        decreases ps@.len() - i,
    {
        proof {
            assert(ps@.take(i + 1).drop_last() =~= ps@.take(i as int));
            assert(ps@.take(i + 1).last() == ps@[i as int]);
        }
        if ps[i].par_desc.unicode_len() > 0 && ps[i].par_type.unicode_len() > 0 {
            n = n + 1;
        }
        i = i + 1;
    }
    proof {
        assert(ps@.take(ps@.len() as int) =~= ps@);
    }
    n
}

/// The synopsis parameter list: every entry through the aligned-line
/// format in bold, comma-delimited with the last entry bare, and no
/// inline comments (the name field width is zero there).
pub open spec fn synopsis_params_spec(ps: Seq<FnParam>, tw: int) -> Seq<char>
    decreases ps.len(),
{
    if ps.len() == 0 {
        Seq::empty()
    } else {
        let delim = if ps.len() == 1 {
            ""@
        } else {
            ","@
        };
        format_param_spec(ps[0], tw, 0, true, delim) + synopsis_params_spec(ps.drop_first(), tw)
    }
}

fn synopsis_params(ps: &Vec<FnParam>, tw: usize) -> (r: String)
    ensures
        r@ == synopsis_params_spec(ps@, tw as int),
{
    let mut out = String::new();
    let mut i: usize = 0;
    proof {
        assert(ps@.skip(0) =~= ps@);
        assert(Seq::<char>::empty() + synopsis_params_spec(ps@, tw as int)
            =~= synopsis_params_spec(ps@, tw as int));
    }
    while i < ps.len()
        invariant
            i <= ps@.len(),
            out@ + synopsis_params_spec(ps@.skip(i as int), tw as int) == synopsis_params_spec(
                ps@,
                tw as int,
            ),
        decreases ps@.len() - i,
    {
        proof {
            assert(ps@.skip(i as int).drop_first() =~= ps@.skip(i + 1));
            assert(ps@.skip(i as int)[0] == ps@[i as int]);
        }
        let delim = if i + 1 == ps.len() {
            ""
        } else {
            ","
        };
        proof {
            reveal_strlit("");
            reveal_strlit(",");
        }
        let piece = format_param(&ps[i], tw, 0, true, delim);
        out.append(piece.as_str());
        i = i + 1;
    }
    proof {
        assert(ps@.skip(ps@.len() as int) =~= Seq::<FnParam>::empty());
    }
    out
}

/// One PARAMETERS entry per parameter: a tagged name and its description.
pub open spec fn params_entries_spec(ps: Seq<FnParam>) -> Seq<char>
    decreases ps.len(),
{
    if ps.len() == 0 {
        Seq::empty()
    } else {
        ".TP\n\\fB"@ + ps[0].par_name@ + "\\fP "@ + ps[0].par_desc@ + seq!['\n']
            + params_entries_spec(ps.drop_first())
    }
}

fn params_entries(ps: &Vec<FnParam>) -> (r: String)
    ensures
        r@ == params_entries_spec(ps@),
{
    let mut out = String::new();
    let mut i: usize = 0;
    proof {
        assert(ps@.skip(0) =~= ps@);
        assert(Seq::<char>::empty() + params_entries_spec(ps@) =~= params_entries_spec(ps@));
    }
    while i < ps.len()
        invariant
            i <= ps@.len(),
            out@ + params_entries_spec(ps@.skip(i as int)) == params_entries_spec(ps@),
        decreases ps@.len() - i,
    {
        proof {
            assert(ps@.skip(i as int).drop_first() =~= ps@.skip(i + 1));
            assert(ps@.skip(i as int)[0] == ps@[i as int]);
        }
        out.append(".TP\n\\fB");
        out.append(ps[i].par_name.as_str());
        out.append("\\fP ");
        out.append(ps[i].par_desc.as_str());
        push_newline(&mut out);
        i = i + 1;
    }
    proof {
        assert(ps@.skip(ps@.len() as int) =~= Seq::<FnParam>::empty());
    }
    out
}

/// Every structure in the collection can be measured for layout.
pub open spec fn map_measurable(es: Seq<(String, StructureInfo)>) -> bool {
    forall|j: int|
        0 <= j < es.len() ==> members_measurable((#[trigger] es[j]).1.str_members@)
}

proof fn lemma_lookup_measurable(es: Seq<(String, StructureInfo)>, k: Seq<char>)
    requires
        map_measurable(es),
    ensures
        entries_lookup(es, k) matches Some(s) ==> members_measurable(s.str_members@),
    decreases es.len(),
{
    if es.len() > 0 {
        assert(es[0] == es[0]);
        if es[0].0@ != k {
            assert forall|j: int| 0 <= j < es.drop_first().len() implies members_measurable(
                (#[trigger] es.drop_first()[j]).1.str_members@,
            ) by {
                assert(es.drop_first()[j] == es[j + 1]);
            }
            lemma_lookup_measurable(es.drop_first(), k);
        }
    }
}

/// The STRUCTURES section body from the given reference identifiers on:
/// each resolved structure rendered in order, the section header placed
/// before the first one found, and nothing at all when none is.
pub open spec fn structures_rest_spec(
    refids: Seq<String>,
    es: Seq<(String, StructureInfo)>,
    seen: bool,
) -> Seq<char>
    decreases refids.len(),
{
    if refids.len() == 0 {
        Seq::empty()
    } else {
        match entries_lookup(es, refids[0]@) {
            Some(s) => (if !seen {
                ".SH STRUCTURES\n.PP\n"@
            } else {
                Seq::<char>::empty()
            }) + structure_spec(s) + structures_rest_spec(refids.drop_first(), es, true),
            None => structures_rest_spec(refids.drop_first(), es, seen),
        }
    }
}

/// The whole STRUCTURES section, absent when no referenced structure was
/// resolved.
pub open spec fn structures_section_spec(
    refids: Seq<String>,
    es: Seq<(String, StructureInfo)>,
) -> Seq<char> {
    structures_rest_spec(refids, es, false)
}

#[verifier::rlimit(100)]
fn section_structures(refids: &Vec<String>, structures: &StructMap) -> (r: String)
    requires
        map_measurable(structures.entries@),
    ensures
        r@ == structures_section_spec(refids@, structures.entries@),
{
    let ghost es = structures.entries@;
    let mut out = String::new();
    let mut first = true;
    let mut i: usize = 0;
    proof {
        assert(refids@.skip(0) =~= refids@);
        assert(Seq::<char>::empty() + structures_rest_spec(refids@, es, false)
            =~= structures_rest_spec(refids@, es, false));
    }
    while i < refids.len()
        invariant
            i <= refids@.len(),
            es == structures.entries@,
            map_measurable(es),
            out@ + structures_rest_spec(refids@.skip(i as int), es, !first)
                == structures_rest_spec(refids@, es, false),
        decreases refids@.len() - i,
    {
        proof {
            assert(refids@.skip(i as int).drop_first() =~= refids@.skip(i + 1));
            assert(refids@.skip(i as int)[0] == refids@[i as int]);
            lemma_lookup_measurable(es, refids@[i as int]@);
        }
        let ghost pre = out@;
        let ghost seen0 = !first;
        match structures.get(refids[i].as_str()) {
            Some(s) => {
                if first {
                    out.append(".SH STRUCTURES\n.PP\n");
                    first = false;
                }
                let piece = format_structure(s);
                out.append(piece.as_str());
                proof {
                    assert(out@ + structures_rest_spec(refids@.skip(i + 1), es, true)
                        =~= pre + structures_rest_spec(refids@.skip(i as int), es, seen0));
                }
            },
            None => {},
        }
        i = i + 1;
    }
    proof {
        assert(refids@.skip(refids@.len() as int) =~= Seq::<String>::empty());
    }
    out
}

/// One tagged entry per symbolic return code.
pub open spec fn retval_entries_spec(rvs: Seq<ReturnVal>) -> Seq<char>
    decreases rvs.len(),
{
    if rvs.len() == 0 {
        Seq::empty()
    } else {
        ".TP\n\\fB"@ + rvs[0].ret_name@ + "\\fR "@ + rvs[0].ret_desc@ + seq!['\n']
            + retval_entries_spec(rvs.drop_first())
    }
}

fn retval_entries(rvs: &Vec<ReturnVal>) -> (r: String)
    ensures
        r@ == retval_entries_spec(rvs@),
{
    let mut out = String::new();
    let mut i: usize = 0;
    proof {
        assert(rvs@.skip(0) =~= rvs@);
        assert(Seq::<char>::empty() + retval_entries_spec(rvs@) =~= retval_entries_spec(rvs@));
    }
    while i < rvs.len()
        invariant
            i <= rvs@.len(),
            out@ + retval_entries_spec(rvs@.skip(i as int)) == retval_entries_spec(rvs@),
        decreases rvs@.len() - i,
    {
        proof {
            assert(rvs@.skip(i as int).drop_first() =~= rvs@.skip(i + 1));
            assert(rvs@.skip(i as int)[0] == rvs@[i as int]);
        }
        out.append(".TP\n\\fB");
        out.append(rvs[i].ret_name.as_str());
        out.append("\\fR ");
        out.append(rvs[i].ret_desc.as_str());
        push_newline(&mut out);
        i = i + 1;
    }
    proof {
        assert(rvs@.skip(rvs@.len() as int) =~= Seq::<ReturnVal>::empty());
    }
    out
}

/// One defines-section entry: only a name with no lower-case ASCII letter
/// is shown, with its optional brief and detail text.
pub open spec fn define_entry_spec(d: HashDefine) -> Seq<char> {
    if all_caps(d.hd_name@) {
        (if d.hd_brief@.len() > 0 {
            ".PP\n"@ + d.hd_brief@ + "\n.br\n"@
        } else {
            Seq::<char>::empty()
        }) + (if d.hd_desc@.len() > 0 {
            ".br\n"@ + d.hd_desc@ + "\n.br\n"@
        } else {
            Seq::<char>::empty()
        }) + "#define "@ + d.hd_name@ + " "@ + d.hd_init@ + "\n.br\n"@
    } else {
        Seq::<char>::empty()
    }
}

pub open spec fn define_entries_spec(ds: Seq<HashDefine>) -> Seq<char>
    decreases ds.len(),
{
    if ds.len() == 0 {
        Seq::empty()
    } else {
        define_entry_spec(ds[0]) + define_entries_spec(ds.drop_first())
    }
}

#[verifier::rlimit(100)]
fn define_entries(ds: &Vec<HashDefine>) -> (r: String)
    ensures
        r@ == define_entries_spec(ds@),
{
    let mut out = String::new();
    let mut i: usize = 0;
    proof {
        assert(ds@.skip(0) =~= ds@);
        assert(Seq::<char>::empty() + define_entries_spec(ds@) =~= define_entries_spec(ds@));
    }
    while i < ds.len()
        invariant
            i <= ds@.len(),
            out@ + define_entries_spec(ds@.skip(i as int)) == define_entries_spec(ds@),
        decreases ds@.len() - i,
    {
        proof {
            assert(ds@.skip(i as int).drop_first() =~= ds@.skip(i + 1));
            assert(ds@.skip(i as int)[0] == ds@[i as int]);
        }
        let ghost pre = out@;
        let d = &ds[i];
        if is_all_caps(d.hd_name.as_str()) {
            if d.hd_brief.unicode_len() > 0 {
                out.append(".PP\n");
                out.append(d.hd_brief.as_str());
                out.append("\n.br\n");
            }
            if d.hd_desc.unicode_len() > 0 {
                out.append(".br\n");
                out.append(d.hd_desc.as_str());
                out.append("\n.br\n");
            }
            out.append("#define ");
            out.append(d.hd_name.as_str());
            out.append(" ");
            out.append(d.hd_init.as_str());
            out.append("\n.br\n");
        }
        i = i + 1;
    }
    proof {
        assert(ds@.skip(ds@.len() as int) =~= Seq::<HashDefine>::empty());
    }
    out
}

/// Whether some document at or past `k` has another name.
pub open spec fn any_other_from(funs: Seq<FunctionInfo>, k: int, self_name: Seq<char>) -> bool {
    exists|j: int| k <= j < funs.len() && (#[trigger] funs[j]).fn_name@ != self_name
}

/// The SEE ALSO entries from index `i` on: every other document in
/// original order, comma-delimited, the last entry undelimited.
pub open spec fn see_also_from(
    funs: Seq<FunctionInfo>,
    i: int,
    self_name: Seq<char>,
    section: int,
) -> Seq<char>
    decreases funs.len() - i,
{
    if i < 0 || i >= funs.len() {
        Seq::empty()
    } else if funs[i].fn_name@ == self_name {
        see_also_from(funs, i + 1, self_name, section)
    } else {
        "\\fI"@ + funs[i].fn_name@ + "\\fP("@ + dec_str(section) + ")"@ + (if any_other_from(
            funs,
            i + 1,
            self_name,
        ) {
            ", "@
        } else {
            ""@
        }) + seq!['\n'] + see_also_from(funs, i + 1, self_name, section)
    }
}

/// The SEE ALSO section: header, then the cross-reference list.
pub open spec fn see_also_section_spec(
    funs: Seq<FunctionInfo>,
    self_name: Seq<char>,
    section: int,
) -> Seq<char> {
    ".SH SEE ALSO\n.PP\n.nh\n.ad l\n"@ + see_also_from(funs, 0, self_name, section)
}

#[verifier::rlimit(100)]
fn section_see_also(functions: &Vec<FunctionInfo>, self_name: &str, section: u32) -> (r: String)
    ensures
        r@ == see_also_section_spec(functions@, self_name@, section as int),
{
    let mut out = String::new();
    out.append(".SH SEE ALSO\n.PP\n.nh\n.ad l\n");
    let mut last_other: usize = 0;
    let mut has_other = false;
    let mut i: usize = 0;
    while i < functions.len()
        invariant
            i <= functions@.len(),
            has_other <==> any_other_from(functions@, 0, self_name@) && exists|j: int|
                0 <= j < i && (#[trigger] functions@[j]).fn_name@ != self_name@,
            has_other ==> last_other < i && functions@[last_other as int].fn_name@ != self_name@
                && forall|j: int|
                last_other < j < i ==> (#[trigger] functions@[j]).fn_name@ == self_name@,
        decreases functions@.len() - i,
    {
        if !crate::text::str_eq(functions[i].fn_name.as_str(), self_name) {
            last_other = i;
            has_other = true;
        }
        i = i + 1;
    }
    let ghost funs = functions@;
    let section_str = crate::text::u32_to_string(section);
    let mut k: usize = 0;
    while k < functions.len()
        invariant
            k <= funs.len(),
            funs == functions@,
            section_str@ == dec_str(section as int),
            has_other ==> last_other < funs.len() && funs[last_other as int].fn_name@ != self_name@
                && forall|j: int|
                last_other < j < funs.len() ==> (#[trigger] funs[j]).fn_name@ == self_name@,
            !has_other ==> forall|j: int|
                0 <= j < funs.len() ==> (#[trigger] funs[j]).fn_name@ == self_name@,
            out@ + see_also_from(funs, k as int, self_name@, section as int)
                == ".SH SEE ALSO\n.PP\n.nh\n.ad l\n"@ + see_also_from(
                funs,
                0,
                self_name@,
                section as int,
            ),
        decreases funs.len() - k,
    {
        let ghost pre = out@;
        if !crate::text::str_eq(functions[k].fn_name.as_str(), self_name) {
            let more = has_other && k < last_other;
            proof {
                if more {
                    assert(any_other_from(funs, k + 1, self_name@));
                } else {
                    assert forall|j: int|
                        k + 1 <= j < funs.len() implies (#[trigger] funs[j]).fn_name@
                        == self_name@ by {}
                    assert(!any_other_from(funs, k + 1, self_name@));
                }
            }
            out.append("\\fI");
            out.append(functions[k].fn_name.as_str());
            out.append("\\fP(");
            out.append(section_str.as_str());
            out.append(")");
            if more {
                out.append(", ");
            } else {
                out.append("");
            }
            push_newline(&mut out);
            proof {
                let delim = if any_other_from(funs, k + 1, self_name@) {
                    ", "@
                } else {
                    ""@
                };
                let piece = "\\fI"@ + funs[k as int].fn_name@ + "\\fP("@ + dec_str(
                    section as int,
                ) + ")"@ + delim + seq!['\n'];
                assert(see_also_from(funs, k as int, self_name@, section as int) == piece
                    + see_also_from(funs, k + 1, self_name@, section as int));
                assert(out@ =~= pre + piece);
                assert(out@ + see_also_from(funs, k + 1, self_name@, section as int)
                    =~= pre + (piece + see_also_from(funs, k + 1, self_name@, section as int)));
            }
        }
        k = k + 1;
    }
    out
}

/// The opening comment and title line of every page.
pub open spec fn title_spec(opt: FormatOpts, man_date: Seq<char>, f: FunctionInfo) -> Seq<char> {
    ".\\\"  Automatically generated man page, do not edit\n"@ + ".TH "@ + upper_spec(f.fn_name@)
        + " "@ + dec_str(opt.man_section as int) + " "@ + man_date + " \""@ + opt.package_name@
        + "\" \""@ + opt.header@ + "\"\n"@
}

/// The NAME section: the name, with its brief summary when there is one.
pub open spec fn name_section_spec(f: FunctionInfo) -> Seq<char> {
    ".SH NAME\n.PP\n"@ + if f.fn_brief@.len() > 0 {
        f.fn_name@ + " \\- "@ + f.fn_brief@ + seq!['\n']
    } else {
        f.fn_name@ + seq!['\n']
    }
}

/// The SYNOPSIS section: the include line, and when the document has a
/// definition, the signature with its aligned parameter list.
pub open spec fn synopsis_section_spec(opt: FormatOpts, f: FunctionInfo) -> Seq<char> {
    ".SH SYNOPSIS\n.PP\n.nf\n.B #include <"@ + opt.header_prefix@ + opt.headerfile@ + ">\n"@
        + if f.fn_def@.len() > 0 {
        ".sp\n\\fB"@ + f.fn_def@ + "\\fP(\n"@ + synopsis_params_spec(
            f.fn_args@,
            clipped_max_type_len(f.fn_args@),
        ) + ");\n.fi\n"@
    } else {
        Seq::<char>::empty()
    }
}

/// The PARAMETERS section, present only when asked for and some parameter
/// carries both a type and a description.
pub open spec fn params_section_spec(opt: FormatOpts, f: FunctionInfo) -> Seq<char> {
    if opt.print_params && count_described(f.fn_args@) > 0 {
        ".SH PARAMETERS\n.PP\n"@ + params_entries_spec(f.fn_args@)
    } else {
        Seq::<char>::empty()
    }
}

/// The DESCRIPTION section, reflowed, when the document has detail text.
pub open spec fn description_section_spec(f: FunctionInfo) -> Seq<char> {
    if f.fn_detail@.len() > 0 {
        ".SH DESCRIPTION\n.PP\n"@ + long_string_spec(f.fn_detail@)
    } else {
        Seq::<char>::empty()
    }
}

/// The RETURN VALUE section: free text and the tagged entries, present
/// only when the free text is.
pub open spec fn retval_section_spec(f: FunctionInfo) -> Seq<char> {
    if f.fn_returnval@.len() > 0 {
        ".SH RETURN VALUE\n.PP\n"@ + f.fn_returnval@ + "\n.br\n"@ + retval_entries_spec(
            f.fn_retvals@,
        ) + ".PP\n"@
    } else {
        Seq::<char>::empty()
    }
}

/// The DEFINES section, present only where defines were collected: the
/// whole-file page.
pub open spec fn defines_section_spec(f: FunctionInfo) -> Seq<char> {
    if f.fn_defines@.len() > 0 {
        ".SH DEFINES\n.PP\n"@ + define_entries_spec(f.fn_defines@)
    } else {
        Seq::<char>::empty()
    }
}

/// The NOTE section, reflowed, when the document has notes.
pub open spec fn notes_section_spec(f: FunctionInfo) -> Seq<char> {
    if f.fn_note@.len() > 0 {
        ".SH NOTE\n.PP\n"@ + long_string_spec(f.fn_note@)
    } else {
        Seq::<char>::empty()
    }
}

/// The COPYRIGHT section, when a copyright line was supplied.
pub open spec fn copyright_section_spec(copyright: Seq<char>) -> Seq<char> {
    if copyright.len() > 0 {
        ".SH COPYRIGHT\n.PP\n"@ + copyright + seq!['\n']
    } else {
        Seq::<char>::empty()
    }
}

/// One whole emitted page, in section order.
pub open spec fn page_spec(
    opt: FormatOpts,
    man_date: Seq<char>,
    f: FunctionInfo,
    funs: Seq<FunctionInfo>,
    es: Seq<(String, StructureInfo)>,
    copyright: Seq<char>,
) -> Seq<char> {
    title_spec(opt, man_date, f) + name_section_spec(f) + synopsis_section_spec(opt, f)
        + params_section_spec(opt, f) + description_section_spec(f) + structures_section_spec(
        f.fn_refids@,
        es,
    ) + retval_section_spec(f) + defines_section_spec(f) + notes_section_spec(f)
        + see_also_section_spec(funs, f.fn_name@, opt.man_section as int) + copyright_section_spec(
        copyright,
    )
}

/// Whether a document is the synthetic whole-file page that is suppressed
/// unless whole-file output was requested.
pub open spec fn page_suppressed(opt: FormatOpts, f: FunctionInfo) -> bool {
    f.fn_name@ == opt.headerfile@ && !opt.print_general
}

/// Print a single man page: the whole formatted page for the document, or
/// nothing when the document is the suppressed whole-file page.
#[verifier::rlimit(100)]
#[verifier::spinoff_prover]
pub fn man_page_text(
    opt: &FormatOpts,
    man_date: &str,
    function: &FunctionInfo,
    functions: &Vec<FunctionInfo>,
    structures: &StructMap,
    copyright: &str,
) -> (r: Option<String>)
    requires
        map_measurable(structures.entries@),
    ensures
        r is Some <==> !page_suppressed(*opt, *function),
        r matches Some(page) ==> page@ == page_spec(
            *opt,
            man_date@,
            *function,
            functions@,
            structures.entries@,
            copyright@,
        ),
{
    if crate::text::str_eq(function.fn_name.as_str(), opt.headerfile.as_str())
        && !opt.print_general {
        return None;
    }
    let mut out = String::new();

    out.append(".\\\"  Automatically generated man page, do not edit\n");
    out.append(".TH ");
    let upper = crate::text::to_upper_ascii(function.fn_name.as_str());
    out.append(upper.as_str());
    out.append(" ");
    let section_str = crate::text::u32_to_string(opt.man_section);
    out.append(section_str.as_str());
    out.append(" ");
    out.append(man_date);
    out.append(" \"");
    out.append(opt.package_name.as_str());
    out.append("\" \"");
    out.append(opt.header.as_str());
    out.append("\"\n");
    proof {
        assert(out@ =~= title_spec(*opt, man_date@, *function));
    }

    out.append(".SH NAME\n.PP\n");
    if function.fn_brief.unicode_len() > 0 {
        out.append(function.fn_name.as_str());
        out.append(" \\- ");
        out.append(function.fn_brief.as_str());
        push_newline(&mut out);
    } else {
        out.append(function.fn_name.as_str());
        push_newline(&mut out);
    }
    proof {
        assert(out@ =~= title_spec(*opt, man_date@, *function) + name_section_spec(*function));
    }
    let ghost done2 = out@;

    out.append(".SH SYNOPSIS\n.PP\n.nf\n.B #include <");
    out.append(opt.header_prefix.as_str());
    out.append(opt.headerfile.as_str());
    out.append(">\n");
    if function.fn_def.unicode_len() > 0 {
        out.append(".sp\n\\fB");
        out.append(function.fn_def.as_str());
        out.append("\\fP(\n");
        let tw = compute_clipped_max_type_len(&function.fn_args);
        let ps = synopsis_params(&function.fn_args, tw);
        out.append(ps.as_str());
        out.append(");\n.fi\n");
    }
    proof {
        assert(out@ =~= done2 + synopsis_section_spec(*opt, *function));
    }
    let ghost done3 = out@;

    if opt.print_params && compute_count_described(&function.fn_args) > 0 {
        out.append(".SH PARAMETERS\n.PP\n");
        let pe = params_entries(&function.fn_args);
        out.append(pe.as_str());
    }
    proof {
        assert(out@ =~= done3 + params_section_spec(*opt, *function));
    }
    let ghost done4 = out@;

    if function.fn_detail.unicode_len() > 0 {
        out.append(".SH DESCRIPTION\n.PP\n");
        let body = format_long_string(function.fn_detail.as_str());
        out.append(body.as_str());
    }
    proof {
        assert(out@ =~= done4 + description_section_spec(*function));
    }
    let ghost done5 = out@;

    let st = section_structures(&function.fn_refids, structures);
    out.append(st.as_str());
    let ghost done6 = out@;

    if function.fn_returnval.unicode_len() > 0 {
        out.append(".SH RETURN VALUE\n.PP\n");
        out.append(function.fn_returnval.as_str());
        out.append("\n.br\n");
        let re = retval_entries(&function.fn_retvals);
        out.append(re.as_str());
        out.append(".PP\n");
    }
    proof {
        assert(out@ =~= done6 + retval_section_spec(*function));
    }
    let ghost done7 = out@;

    if function.fn_defines.len() > 0 {
        out.append(".SH DEFINES\n.PP\n");
        let de = define_entries(&function.fn_defines);
        out.append(de.as_str());
    }
    proof {
        assert(out@ =~= done7 + defines_section_spec(*function));
    }
    let ghost done8 = out@;

    if function.fn_note.unicode_len() > 0 {
        out.append(".SH NOTE\n.PP\n");
        let body = format_long_string(function.fn_note.as_str());
        out.append(body.as_str());
    }
    proof {
        assert(out@ =~= done8 + notes_section_spec(*function));
    }
    let ghost done9 = out@;

    let sa = section_see_also(functions, function.fn_name.as_str(), opt.man_section);
    out.append(sa.as_str());

    if copyright.unicode_len() > 0 {
        out.append(".SH COPYRIGHT\n.PP\n");
        out.append(copyright);
        push_newline(&mut out);
    }
    proof {
        assert(out@ =~= done9 + see_also_section_spec(
            functions@,
            function.fn_name@,
            opt.man_section as int,
        ) + copyright_section_spec(copyright@));
        assert(out@ =~= page_spec(
            *opt,
            man_date@,
            *function,
            functions@,
            structures.entries@,
            copyright@,
        ));
    }
    Some(out)
}

/// One parameter of the plain-text dump.
pub open spec fn ascii_param_spec(p: FnParam) -> Seq<char> {
    (match p.par_refid {
        Some(r) => "  PARAM: "@ + p.par_type@ + " "@ + p.par_name@ + p.par_args@ + " (refid="@
            + r@ + ")"@ + seq!['\n'],
        None => "  PARAM: "@ + p.par_type@ + " "@ + p.par_name@ + p.par_args@ + seq!['\n'],
    }) + (if p.par_brief@.len() > 0 {
        "  PARAM brief: "@ + p.par_brief@ + seq!['\n']
    } else {
        Seq::<char>::empty()
    }) + (if p.par_desc@.len() > 0 {
        "  PARAM desc: "@ + p.par_desc@ + seq!['\n']
    } else {
        Seq::<char>::empty()
    })
}

pub open spec fn ascii_params_spec(ps: Seq<FnParam>) -> Seq<char>
    decreases ps.len(),
{
    if ps.len() == 0 {
        Seq::empty()
    } else {
        ascii_param_spec(ps[0]) + ascii_params_spec(ps.drop_first())
    }
}

/// One member line of the plain-text dump.
pub open spec fn ascii_member_spec(m: FnParam) -> Seq<char> {
    "   MEMB: "@ + m.par_type@ + " "@ + m.par_name@ + m.par_args@ + seq!['\n']
}

pub open spec fn ascii_members_spec(ms: Seq<FnParam>) -> Seq<char>
    decreases ms.len(),
{
    if ms.len() == 0 {
        Seq::empty()
    } else {
        ascii_member_spec(ms[0]) + ascii_members_spec(ms.drop_first())
    }
}

/// One resolved structure of the plain-text dump.
pub open spec fn ascii_structure_spec(s: StructureInfo) -> Seq<char> {
    "STRUCTURE: "@ + s.str_name@ + seq!['\n'] + (if s.str_brief@.len() > 0 {
        "           "@ + s.str_brief@ + seq!['\n']
    } else {
        Seq::<char>::empty()
    }) + (if s.str_description@.len() > 0 {
        "           "@ + s.str_description@ + seq!['\n']
    } else {
        Seq::<char>::empty()
    }) + ascii_members_spec(s.str_members@)
}

pub open spec fn ascii_structs_spec(
    refids: Seq<String>,
    es: Seq<(String, StructureInfo)>,
) -> Seq<char>
    decreases refids.len(),
{
    if refids.len() == 0 {
        Seq::empty()
    } else {
        (match entries_lookup(es, refids[0]@) {
            Some(s) => ascii_structure_spec(s),
            None => Seq::<char>::empty(),
        }) + ascii_structs_spec(refids.drop_first(), es)
    }
}

/// One document of the plain-text dump, mainly for debugging.
pub open spec fn text_function_spec(f: FunctionInfo, es: Seq<(String, StructureInfo)>) -> Seq<
    char,
> {
    "FUNCTION "@ + f.fn_type@ + " "@ + f.fn_name@ + " "@ + f.fn_argsstring@ + seq!['\n']
        + ascii_params_spec(f.fn_args@) + "BRIEF: "@ + f.fn_brief@ + seq!['\n'] + "DETAIL: "@
        + f.fn_detail@ + seq!['\n'] + ascii_structs_spec(f.fn_refids@, es)
        + "----------------------\n"@
}

/// The plain-text dump of one document with its resolved structures.
#[verifier::rlimit(100)]
pub fn format_text_function(f: &FunctionInfo, structures: &StructMap) -> (r: String)
    ensures
        r@ == text_function_spec(*f, structures.entries@),
{
    let mut out = String::new();
    out.append("FUNCTION ");
    out.append(f.fn_type.as_str());
    out.append(" ");
    out.append(f.fn_name.as_str());
    out.append(" ");
    out.append(f.fn_argsstring.as_str());
    push_newline(&mut out);
    let ghost head = out@;
    let mut i: usize = 0;
    proof {
        assert(f.fn_args@.skip(0) =~= f.fn_args@);
    }
    while i < f.fn_args.len()
        invariant
            i <= f.fn_args@.len(),
            out@ + ascii_params_spec(f.fn_args@.skip(i as int)) == head + ascii_params_spec(
                f.fn_args@,
            ),
        decreases f.fn_args@.len() - i,
    {
        proof {
            assert(f.fn_args@.skip(i as int).drop_first() =~= f.fn_args@.skip(i + 1));
            assert(f.fn_args@.skip(i as int)[0] == f.fn_args@[i as int]);
        }
        let ghost pre = out@;
        let p = &f.fn_args[i];
        match &p.par_refid {
            Some(r) => {
                out.append("  PARAM: ");
                out.append(p.par_type.as_str());
                out.append(" ");
                out.append(p.par_name.as_str());
                out.append(p.par_args.as_str());
                out.append(" (refid=");
                out.append(r.as_str());
                out.append(")");
                push_newline(&mut out);
            },
            None => {
                out.append("  PARAM: ");
                out.append(p.par_type.as_str());
                out.append(" ");
                out.append(p.par_name.as_str());
                out.append(p.par_args.as_str());
                push_newline(&mut out);
            },
        }
        if p.par_brief.unicode_len() > 0 {
            out.append("  PARAM brief: ");
            out.append(p.par_brief.as_str());
            push_newline(&mut out);
        }
        if p.par_desc.unicode_len() > 0 {
            out.append("  PARAM desc: ");
            out.append(p.par_desc.as_str());
            push_newline(&mut out);
        }
        proof {
            assert(out@ =~= pre + ascii_param_spec(f.fn_args@[i as int]));
            assert(out@ + ascii_params_spec(f.fn_args@.skip(i + 1)) =~= pre + ascii_params_spec(
                f.fn_args@.skip(i as int),
            ));
        }
        i = i + 1;
    }
    proof {
        assert(f.fn_args@.skip(f.fn_args@.len() as int) =~= Seq::<FnParam>::empty());
    }
    out.append("BRIEF: ");
    out.append(f.fn_brief.as_str());
    push_newline(&mut out);
    out.append("DETAIL: ");
    out.append(f.fn_detail.as_str());
    push_newline(&mut out);
    let ghost head2 = out@;
    let mut k: usize = 0;
    proof {
        assert(f.fn_refids@.skip(0) =~= f.fn_refids@);
    }
    while k < f.fn_refids.len()
        invariant
            k <= f.fn_refids@.len(),
            out@ + ascii_structs_spec(f.fn_refids@.skip(k as int), structures.entries@) == head2
                + ascii_structs_spec(f.fn_refids@, structures.entries@),
        decreases f.fn_refids@.len() - k,
    {
        proof {
            assert(f.fn_refids@.skip(k as int).drop_first() =~= f.fn_refids@.skip(k + 1));
            assert(f.fn_refids@.skip(k as int)[0] == f.fn_refids@[k as int]);
        }
        let ghost pre = out@;
        match structures.get(f.fn_refids[k].as_str()) {
            Some(s) => {
                out.append("STRUCTURE: ");
                out.append(s.str_name.as_str());
                push_newline(&mut out);
                if s.str_brief.unicode_len() > 0 {
                    out.append("           ");
                    out.append(s.str_brief.as_str());
                    push_newline(&mut out);
                }
                if s.str_description.unicode_len() > 0 {
                    out.append("           ");
                    out.append(s.str_description.as_str());
                    push_newline(&mut out);
                }
                let ghost head3 = out@;
                let mut m: usize = 0;
                proof {
                    assert(s.str_members@.skip(0) =~= s.str_members@);
                }
                while m < s.str_members.len()
                    invariant
                        m <= s.str_members@.len(),
                        out@ + ascii_members_spec(s.str_members@.skip(m as int)) == head3
                            + ascii_members_spec(s.str_members@),
                    decreases s.str_members@.len() - m,
                {
                    proof {
                        assert(s.str_members@.skip(m as int).drop_first() =~= s.str_members@.skip(
                            m + 1,
                        ));
                        assert(s.str_members@.skip(m as int)[0] == s.str_members@[m as int]);
                    }
                    let mb = &s.str_members[m];
                    out.append("   MEMB: ");
                    out.append(mb.par_type.as_str());
                    out.append(" ");
                    out.append(mb.par_name.as_str());
                    out.append(mb.par_args.as_str());
                    push_newline(&mut out);
                    m = m + 1;
                }
                proof {
                    assert(s.str_members@.skip(s.str_members@.len() as int)
                        =~= Seq::<FnParam>::empty());
                    assert(out@ =~= pre + ascii_structure_spec(*s));
                    assert(out@ + ascii_structs_spec(f.fn_refids@.skip(k + 1), structures.entries@)
                        =~= pre + ascii_structs_spec(
                        f.fn_refids@.skip(k as int),
                        structures.entries@,
                    ));
                }
            },
            None => {},
        }
        k = k + 1;
    }
    proof {
        assert(f.fn_refids@.skip(f.fn_refids@.len() as int) =~= Seq::<String>::empty());
    }
    out.append("----------------------\n");
    out
}

/// The plain-text dump of every document, in order.
pub open spec fn ascii_pages_spec(
    funs: Seq<FunctionInfo>,
    es: Seq<(String, StructureInfo)>,
) -> Seq<char>
    decreases funs.len(),
{
    if funs.len() == 0 {
        Seq::empty()
    } else {
        text_function_spec(funs[0], es) + ascii_pages_spec(funs.drop_first(), es)
    }
}

/// Just for testing really: the plain-text dump of the whole model.
pub fn ascii_pages_text(functions: &Vec<FunctionInfo>, structures: &StructMap) -> (r: String)
    ensures
        r@ == ascii_pages_spec(functions@, structures.entries@),
{
    let mut out = String::new();
    let mut i: usize = 0;
    proof {
        assert(functions@.skip(0) =~= functions@);
        assert(Seq::<char>::empty() + ascii_pages_spec(functions@, structures.entries@)
            =~= ascii_pages_spec(functions@, structures.entries@));
    }
    while i < functions.len()
        invariant
            i <= functions@.len(),
            out@ + ascii_pages_spec(functions@.skip(i as int), structures.entries@)
                == ascii_pages_spec(functions@, structures.entries@),
        decreases functions@.len() - i,
    {
        proof {
            assert(functions@.skip(i as int).drop_first() =~= functions@.skip(i + 1));
            assert(functions@.skip(i as int)[0] == functions@[i as int]);
        }
        let page = format_text_function(&functions[i], structures);
        out.append(page.as_str());
        i = i + 1;
    }
    proof {
        assert(functions@.skip(functions@.len() as int) =~= Seq::<FunctionInfo>::empty());
    }
    out
}

/// The name and text of every page that is emitted, in document order;
/// the suppressed whole-file page is left out.
pub open spec fn pages_spec(
    opt: FormatOpts,
    man_date: Seq<char>,
    funs: Seq<FunctionInfo>,
    all: Seq<FunctionInfo>,
    es: Seq<(String, StructureInfo)>,
    copyright: Seq<char>,
) -> Seq<(Seq<char>, Seq<char>)>
    decreases funs.len(),
{
    if funs.len() == 0 {
        Seq::empty()
    } else if page_suppressed(opt, funs[0]) {
        pages_spec(opt, man_date, funs.drop_first(), all, es, copyright)
    } else {
        seq![(funs[0].fn_name@, page_spec(opt, man_date, funs[0], all, es, copyright))]
            + pages_spec(opt, man_date, funs.drop_first(), all, es, copyright)
    }
}

/// The views of a list of named pages.
pub open spec fn page_views(ps: Seq<(String, String)>) -> Seq<(Seq<char>, Seq<char>)> {
    ps.map_values(|p: (String, String)| (p.0@, p.1@))
}

/// Print all man pages: one named text artifact per document.
pub fn man_pages_text(
    opt: &FormatOpts,
    man_date: &str,
    functions: &Vec<FunctionInfo>,
    structures: &StructMap,
    copyright: &str,
) -> (r: Vec<(String, String)>)
    requires
        map_measurable(structures.entries@),
    ensures
        page_views(r@) == pages_spec(
            *opt,
            man_date@,
            functions@,
            functions@,
            structures.entries@,
            copyright@,
        ),
{
    let ghost all = functions@;
    let mut out: Vec<(String, String)> = Vec::new();
    let mut i: usize = 0;
    proof {
        assert(all.skip(0) =~= all);
        assert(page_views(out@) + pages_spec(
            *opt,
            man_date@,
            all,
            all,
            structures.entries@,
            copyright@,
        ) =~= pages_spec(*opt, man_date@, all, all, structures.entries@, copyright@));
    }
    while i < functions.len()
        invariant
            i <= all.len(),
            all == functions@,
            map_measurable(structures.entries@),
            page_views(out@) + pages_spec(
                *opt,
                man_date@,
                all.skip(i as int),
                all,
                structures.entries@,
                copyright@,
            ) == pages_spec(*opt, man_date@, all, all, structures.entries@, copyright@),
        decreases all.len() - i,
    {
        proof {
            assert(all.skip(i as int).drop_first() =~= all.skip(i + 1));
            assert(all.skip(i as int)[0] == all[i as int]);
        }
        match man_page_text(opt, man_date, &functions[i], functions, structures, copyright) {
            Some(text) => {
                let ghost pre = out@;
                let name = functions[i].fn_name.clone();
                out.push((name, text));
                proof {
                    assert(page_views(out@) =~= page_views(pre).push(
                        (all[i as int].fn_name@, page_spec(
                            *opt,
                            man_date@,
                            all[i as int],
                            all,
                            structures.entries@,
                            copyright@,
                        )),
                    ));
                    assert(page_views(out@) + pages_spec(
                        *opt,
                        man_date@,
                        all.skip(i + 1),
                        all,
                        structures.entries@,
                        copyright@,
                    ) =~= page_views(pre) + pages_spec(
                        *opt,
                        man_date@,
                        all.skip(i as int),
                        all,
                        structures.entries@,
                        copyright@,
                    ));
                }
            },
            None => {},
        }
        i = i + 1;
    }
    proof {
        assert(all.skip(all.len() as int) =~= Seq::<FunctionInfo>::empty());
    }
    out
}

/// The date printed at the top of every page: the configured date string,
/// or today's date where none was configured.
pub open spec fn date_string_spec(manpage_date: Seq<char>, y: int, m: int, d: int) -> Seq<char> {
    if manpage_date.len() > 0 {
        manpage_date
    } else {
        dec_str_signed(y) + "-"@ + dec_str(m) + "-"@ + dec_str(d)
    }
}

pub fn date_string(manpage_date: &str, year: i32, month: u32, day: u32) -> (r: String)
    ensures
        r@ == date_string_spec(manpage_date@, year as int, month as int, day as int),
{
    if manpage_date.unicode_len() > 0 {
        manpage_date.to_owned()
    } else {
        let mut out = crate::text::i32_to_string(year);
        out.append("-");
        let ms = crate::text::u32_to_string(month);
        out.append(ms.as_str());
        out.append("-");
        let ds = crate::text::u32_to_string(day);
        out.append(ds.as_str());
        out
    }
}

/// The copyright line built from configuration: the start year, the
/// configured year (or this year where the configured one is zero), and
/// the company.
pub open spec fn copyright_line_spec(start_year: int, year: int, company: Seq<char>) -> Seq<char> {
    "Copyright (C) "@ + dec_str(start_year) + "-"@ + dec_str_signed(year) + " "@ + company
        + ", All rights reserved"@
}

pub fn copyright_line(start_year: u32, manpage_year: i32, today_year: i32, company: &str) -> (r:
    String)
    ensures
        r@ == copyright_line_spec(
            start_year as int,
            if manpage_year == 0 {
                today_year as int
            } else {
                manpage_year as int
            },
            company@,
        ),
{
    let year = if manpage_year == 0 {
        today_year
    } else {
        manpage_year
    };
    let mut out = String::new();
    out.append("Copyright (C) ");
    let sy = crate::text::u32_to_string(start_year);
    out.append(sy.as_str());
    out.append("-");
    let yy = crate::text::i32_to_string(year);
    out.append(yy.as_str());
    out.append(" ");
    out.append(company);
    out.append(", All rights reserved");
    out
}

/// The copyright notice found in a header source: the first line opening
/// like a comment's copyright line, with the comment lead-in taken off.
pub open spec fn find_copyright_spec(lines: Seq<Seq<char>>) -> Option<Seq<char>>
    decreases lines.len(),
{
    if lines.len() == 0 {
        Option::None
    } else if starts_with_spec(lines[0], " * Copyright"@) {
        Option::Some(lines[0].skip(3))
    } else {
        find_copyright_spec(lines.drop_first())
    }
}

pub fn find_copyright(lines: &Vec<String>) -> (r: Option<String>)
    ensures
        match r {
            Some(s) => find_copyright_spec(word_views(lines@)) == Some(s@),
            None => find_copyright_spec(word_views(lines@)) is None,
        },
{
    let ghost all = word_views(lines@);
    let mut i: usize = 0;
    proof {
        assert(all.skip(0) =~= all);
    }
    while i < lines.len()
        invariant
            i <= all.len(),
            all == word_views(lines@),
            find_copyright_spec(all) == find_copyright_spec(all.skip(i as int)),
        decreases all.len() - i,
    {
        proof {
            assert(all.skip(i as int).drop_first() =~= all.skip(i + 1));
            assert(all.skip(i as int)[0] == all[i as int]);
        }
        let l = &lines[i];
        if starts_with(l.as_str(), " * Copyright") {
            let len = l.unicode_len();
            proof {
                reveal_strlit(" * Copyright");
            }
            let tail = l.substring_char(3, len);
            proof {
                assert(tail@ =~= all[i as int].skip(3));
            }
            return Some(tail.to_owned());
        }
        i = i + 1;
    }
    proof {
        assert(all.skip(all.len() as int) =~= Seq::<Seq<char>>::empty());
    }
    None
}

} // verus!
