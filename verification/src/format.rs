//! The layout engine's measuring and line-building core: escape-blind
//! length, pointer-syntax normalization, comment wrapping and the aligned
//! parameter/member line.
use vstd::prelude::*;
use crate::model::FnParam;
use crate::text::{
    is_space_char, is_space, push_char, spaces, append_spaces, pad_right_spec, append_padded,
};

verus! {

/// How long a parameter type may get before alignment is abandoned for it;
/// mainly to stop function-pointer types dragging everything else out of line.
pub const MAX_PRINT_PARAM_LEN: usize = 80;

/// The short-comment budget: the longest unformatted description that is
/// still placed inline on the entry's own line.
pub const MAX_STRUCT_COMMENT_LEN: usize = 50;

/// Length with escape sequences left out: a backslash and the character
/// after it count for nothing.
pub open spec fn ufl(s: Seq<char>, esc: bool) -> nat
    decreases s.len(),
{
    if s.len() == 0 {
        0
    } else if s[0] == '\\' {
        ufl(s.drop_first(), true)
    } else if esc {
        ufl(s.drop_first(), false)
    } else {
        1 + ufl(s.drop_first(), false)
    }
}

/// The length of a string ignoring any formatting escapes.
pub open spec fn unformatted_len(s: Seq<char>) -> nat {
    ufl(s, false)
}

/// Return the length of a string ignoring any formatting.
pub fn len_without_formatting(param: &str) -> (r: usize)
    ensures
        r == unformatted_len(param@),
{
    let len = param.unicode_len();
    let mut length: usize = 0;
    let mut last_was_escape = false;
    let mut i: usize = 0;
    proof {
        assert(param@.skip(0) =~= param@);
    }
    while i < len
        invariant
            i <= len,
            len == param@.len(),
            length <= i,
            length + ufl(param@.skip(i as int), last_was_escape) == unformatted_len(param@),
        decreases len - i,
    {
        proof {
            assert(param@.skip(i as int).drop_first() =~= param@.skip(i + 1));
            assert(param@.skip(i as int)[0] == param@[i as int]);
        }
        let c = param.get_char(i);
        if c == '\\' {
            last_was_escape = true;
        } else if last_was_escape {
            last_was_escape = false;
        } else {
            length = length + 1;
        }
        i = i + 1;
    }
    length
}

/// The normalized pointer/function-pointer annotation taken off a type
/// string's trailing syntax.
#[derive(Clone, Copy, PartialEq, Eq, Structural, Debug)]
pub enum Indirection {
    /// No trailing marker: the type is emitted unchanged.
    Plain,
    /// One trailing `*`.
    Pointer,
    /// Two trailing `*`.
    Double,
    /// A trailing `(*`: a function pointer.
    FuncPtr,
}

/// Splits a declared type into its base and its indirection category:
/// a trailing `**` or `(*` is peeled off whole, a single trailing `*`
/// alone, and anything else is left untouched.
pub open spec fn normalize_spec(t: Seq<char>) -> (Seq<char>, Indirection) {
    if t.len() > 0 && t.last() == '*' {
        if t.len() > 1 && t[t.len() - 2] == '*' {
            (t.take(t.len() - 2), Indirection::Double)
        } else if t.len() > 1 && t[t.len() - 2] == '(' {
            (t.take(t.len() - 2), Indirection::FuncPtr)
        } else {
            (t.take(t.len() - 1), Indirection::Pointer)
        }
    } else {
        (t, Indirection::Plain)
    }
}

/// The two-column marker that stands for each indirection category.
pub open spec fn marker_spec(ind: Indirection) -> Seq<char> {
    match ind {
        Indirection::Plain => "  "@,
        Indirection::Pointer => " *"@,
        Indirection::Double => "**"@,
        Indirection::FuncPtr => "(*"@,
    }
}

/// Reformats pointer types so they line up on the identifier: the base
/// type and the indirection marker peeled off its tail.
pub fn normalize_type(ty: &str) -> (r: (String, Indirection))
    ensures
        (r.0@, r.1) == normalize_spec(ty@),
{
    let len = ty.unicode_len();
    if len > 0 && ty.get_char(len - 1) == '*' {
        if len > 1 && ty.get_char(len - 2) == '*' {
            let base = ty.substring_char(0, len - 2);
            (base.to_owned(), Indirection::Double)
        } else if len > 1 && ty.get_char(len - 2) == '(' {
            let base = ty.substring_char(0, len - 2);
            (base.to_owned(), Indirection::FuncPtr)
        } else {
            let base = ty.substring_char(0, len - 1);
            (base.to_owned(), Indirection::Pointer)
        }
    } else {
        proof {
            assert(ty@.take(len as int) =~= ty@);
        }
        (ty.substring_char(0, len).to_owned(), Indirection::Plain)
    }
}

pub fn indirection_marker(ind: Indirection) -> (r: &'static str)
    ensures
        r@ == marker_spec(ind),
{
    match ind {
        Indirection::Plain => "  ",
        Indirection::Pointer => " *",
        Indirection::Double => "**",
        Indirection::FuncPtr => "(*",
    }
}

/// The words of a string: maximal runs of non-whitespace characters.
pub open spec fn words_of(s: Seq<char>) -> Seq<Seq<char>>
    decreases s.len(), 0int,
{
    if s.len() == 0 {
        Seq::empty()
    } else if is_space_char(s[0]) {
        words_of(s.drop_first())
    } else {
        word_rest(s.drop_first(), seq![s[0]])
    }
}

/// The words of `acc + s` where `acc` is the begun word being read.
pub open spec fn word_rest(s: Seq<char>, acc: Seq<char>) -> Seq<Seq<char>>
    decreases s.len(), 1int,
{
    if s.len() == 0 {
        seq![acc]
    } else if is_space_char(s[0]) {
        seq![acc] + words_of(s)
    } else {
        word_rest(s.drop_first(), acc.push(s[0]))
    }
}

/// The views of a word list.
pub open spec fn word_views(ws: Seq<String>) -> Seq<Seq<char>> {
    ws.map_values(|w: String| w@)
}

/// Splits a string into its whitespace-separated words.
pub fn split_words(s: &str) -> (r: Vec<String>)
    ensures
        word_views(r@) == words_of(s@),
{
    let len = s.unicode_len();
    let mut out: Vec<String> = Vec::new();
    let mut buf = String::new();
    let mut i: usize = 0;
    proof {
        assert(s@.skip(0) =~= s@);
        assert(word_views(out@) + words_of(s@) =~= words_of(s@));
    }
    while i < len
        invariant
            i <= len,
            len == s@.len(),
            buf@.len() == 0 ==> word_views(out@) + words_of(s@.skip(i as int)) == words_of(s@),
            buf@.len() > 0 ==> word_views(out@) + word_rest(s@.skip(i as int), buf@) == words_of(
                s@,
            ),
        decreases len - i,
    {
        proof {
            assert(s@.skip(i as int).drop_first() =~= s@.skip(i + 1));
            assert(s@.skip(i as int)[0] == s@[i as int]);
            assert(s@.skip(i as int).len() > 0);
        }
        let c = s.get_char(i);
        if is_space(c) {
            if buf.unicode_len() > 0 {
                proof {
                    assert(word_rest(s@.skip(i as int), buf@) =~= seq![buf@] + words_of(
                        s@.skip(i as int),
                    ));
                }
                let ghost pre_out = out@;
                let ghost pre_buf = buf@;
                out.push(buf);
                buf = String::new();
                proof {
                    assert(word_views(out@) =~= word_views(pre_out).push(pre_buf));
                    assert(word_views(pre_out).push(pre_buf) + words_of(s@.skip(i as int))
                        =~= word_views(pre_out) + (seq![pre_buf] + words_of(s@.skip(i as int))));
                }
            }
        } else {
            if buf.unicode_len() == 0 {
                proof {
                    assert(words_of(s@.skip(i as int)) == word_rest(s@.skip(i + 1), seq![s@[i as int]]));
                    assert(buf@.push(c) =~= seq![c]);
                }
            } else {
                proof {
                    assert(word_rest(s@.skip(i as int), buf@) == word_rest(
                        s@.skip(i + 1),
                        buf@.push(s@[i as int]),
                    ));
                }
            }
            push_char(&mut buf, c);
        }
        i = i + 1;
    }
    proof {
        assert(s@.skip(len as int) =~= Seq::<char>::empty());
    }
    if buf.unicode_len() > 0 {
        let ghost pre_out = out@;
        let ghost pre_buf = buf@;
        out.push(buf);
        proof {
            assert(word_rest(Seq::<char>::empty(), pre_buf) =~= seq![pre_buf]);
            assert(word_views(out@) =~= word_views(pre_out).push(pre_buf));
            assert(word_views(pre_out).push(pre_buf) =~= word_views(pre_out) + seq![pre_buf]);
        }
    } else {
        proof {
            assert(word_views(out@) + words_of(Seq::<char>::empty()) =~= word_views(out@));
        }
    }
    out
}

/// Lays words out from the running column `col`: a word whose length would
/// push the count past 80 starts a new comment line at column 7; the count
/// deliberately leaves the separating blanks, and a fresh line's first
/// word, out, exactly as the emitter always has.
pub open spec fn wrap_words_spec(ws: Seq<Seq<char>>, col: int) -> Seq<char>
    decreases ws.len(),
{
    if ws.len() == 0 {
        Seq::empty()
    } else if col + ws[0].len() > 80 {
        "\n     *"@ + seq![' '] + ws[0] + wrap_words_spec(ws.drop_first(), 7)
    } else {
        seq![' '] + ws[0] + wrap_words_spec(ws.drop_first(), col + ws[0].len())
    }
}

/// A long description as its own block comment above the entry,
/// word-wrapped to the 80-column target.
pub open spec fn wrap_comment_spec(desc: Seq<char>) -> Seq<char> {
    "    \\fP/*\n     *"@ + wrap_words_spec(words_of(desc), 7) + "\n     */\n"@
}

/// Puts a long comment on lines of its own for clarity.
pub fn wrap_long_comment(comment: &str) -> (r: String)
    ensures
        r@ == wrap_comment_spec(comment@),
{
    let words = split_words(comment);
    let mut out = String::new();
    out.append("    \\fP/*\n     *");
    let mut column: usize = 7;
    let mut i: usize = 0;
    let ghost all = word_views(words@);
    proof {
        assert(all.skip(0) =~= all);
        assert(Seq::<char>::empty() + "    \\fP/*\n     *"@ =~= "    \\fP/*\n     *"@);
    }
    while i < words.len()
        invariant
            i <= words@.len(),
            all == word_views(words@),
            column <= 80,
            out@ + wrap_words_spec(all.skip(i as int), column as int) == "    \\fP/*\n     *"@
                + wrap_words_spec(all, 7),
        decreases words@.len() - i,
    {
        proof {
            assert(all.skip(i as int).drop_first() =~= all.skip(i + 1));
            assert(all.skip(i as int)[0] == all[i as int]);
            assert(all[i as int] == words@[i as int]@);
        }
        let w = &words[i];
        let wlen = w.unicode_len();
        if wlen > 80 - column {
            out.append("\n     *");
            column = 7;
        } else {
            column = column + wlen;
        }
        push_char(&mut out, ' ');
        out.append(w.as_str());
        i = i + 1;
    }
    proof {
        assert(all.skip(words@.len() as int) =~= Seq::<Seq<char>>::empty());
    }
    out.append("\n     */\n");
    out
}

/// Whether a description goes above its entry as a wrapped block comment.
pub open spec fn emits_block_comment(p: FnParam) -> bool {
    unformatted_len(p.par_desc@) > MAX_STRUCT_COMMENT_LEN
}

/// Whether a description is appended inline on the entry's own line.
pub open spec fn emits_inline_comment(p: FnParam, name_field_width: int) -> bool {
    &&& unformatted_len(p.par_desc@) > 0
    &&& unformatted_len(p.par_desc@) <= MAX_STRUCT_COMMENT_LEN
    &&& name_field_width > 0
}

/// The blanks that right-align an inline comment past the name field.
pub open spec fn inline_pad(p: FnParam, name_field_width: int, delim: Seq<char>) -> int {
    1 + (name_field_width - p.par_name@.len() - p.par_args@.len()) - delim.len()
}

/// One emitted entry line: font marker, padded base type, indirection
/// marker, the identifier in italics, its args suffix, the delimiter, and
/// the inline comment when one fits.
pub open spec fn param_main_line(
    p: FnParam,
    type_field_width: int,
    name_field_width: int,
    bold: bool,
    delim: Seq<char>,
) -> Seq<char> {
    let font = if bold {
        "    \\fB"@
    } else {
        "    \\fR"@
    };
    let base = normalize_spec(p.par_type@).0;
    let marker = marker_spec(normalize_spec(p.par_type@).1);
    let inline = if emits_inline_comment(p, name_field_width) {
        "\\fP "@ + spaces(inline_pad(p, name_field_width, delim)) + " /* "@ + p.par_desc@ + " */"@
    } else {
        Seq::<char>::empty()
    };
    font + pad_right_spec(base, type_field_width) + marker + "\\fI"@ + p.par_name@ + "\\fB"@
        + p.par_args@ + "\\fR"@ + delim + inline + seq!['\n']
}

/// A whole formatted entry: the block comment when the description is over
/// the short-comment budget, then the entry line itself.
pub open spec fn format_param_spec(
    p: FnParam,
    type_field_width: int,
    name_field_width: int,
    bold: bool,
    delim: Seq<char>,
) -> Seq<char> {
    let block = if emits_block_comment(p) {
        wrap_comment_spec(p.par_desc@)
    } else {
        Seq::<char>::empty()
    };
    block + param_main_line(p, type_field_width, name_field_width, bold, delim)
}

/// Prints a structure member or a function param given a field width.
/// Also reformats pointers to look nicer.
#[verifier::rlimit(50)]
pub fn format_param(
    pi: &FnParam,
    type_field_width: usize,
    name_field_width: usize,
    bold: bool,
    delimiter: &str,
) -> (r: String)
    requires
        name_field_width < usize::MAX,
        name_field_width > 0 ==> pi.par_name@.len() + pi.par_args@.len() <= name_field_width
            && delimiter@.len() <= 1,
    ensures
        r@ == format_param_spec(
            *pi,
            type_field_width as int,
            name_field_width as int,
            bold,
            delimiter@,
        ),
{
    let mut out = String::new();
    let comment_len = len_without_formatting(pi.par_desc.as_str());
    if comment_len > MAX_STRUCT_COMMENT_LEN {
        let block = wrap_long_comment(pi.par_desc.as_str());
        out.append(block.as_str());
    }
    if bold {
        out.append("    \\fB");
    } else {
        out.append("    \\fR");
    }
    let (formatted_type, ind) = normalize_type(pi.par_type.as_str());
    append_padded(&mut out, formatted_type.as_str(), type_field_width);
    out.append(indirection_marker(ind));
    out.append("\\fI");
    out.append(pi.par_name.as_str());
    out.append("\\fB");
    out.append(pi.par_args.as_str());
    out.append("\\fR");
    out.append(delimiter);
    if comment_len > 0 && comment_len <= MAX_STRUCT_COMMENT_LEN && name_field_width > 0 {
        out.append("\\fP ");
        let pad_width = 1 + (name_field_width - pi.par_name.unicode_len()
            - pi.par_args.unicode_len()) - delimiter.unicode_len();
        append_spaces(&mut out, pad_width);
        out.append(" /* ");
        out.append(pi.par_desc.as_str());
        out.append(" */");
    }
    push_char(&mut out, '\n');
    proof {
        assert(out@ =~= format_param_spec(
            *pi,
            type_field_width as int,
            name_field_width as int,
            bold,
            delimiter@,
        ));
    }
    out
}

} // verus!
