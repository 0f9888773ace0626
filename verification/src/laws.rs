//! The library's general guarantees, stated and proved over the same
//! spec functions its contracts use: column alignment, pointer-marker
//! normalization, the two comment renderings, the fate of unresolved
//! placeholders, and the canonical order of reference-identifier lists.
use vstd::prelude::*;
use crate::model::{
    FnParam, StructureInfo, entries_lookup, StructureType, strictly_sorted, contains_id,
};
use crate::format::{
    normalize_spec, marker_spec, unformatted_len, emits_block_comment, emits_inline_comment,
    param_main_line, Indirection, MAX_STRUCT_COMMENT_LEN,
};
use crate::page::structures_rest_spec;
use crate::resolver::{enum_key, enum_lookup, fetched_key};
use crate::text::{pad_right_spec, lex_lt, lemma_lex_connected, lemma_lex_asymmetric};

verus! {

/// The base type left after normalization never outgrows the declared
/// type it came from.
pub proof fn lemma_normalize_shrinks(t: Seq<char>)
    ensures
        normalize_spec(t).0.len() <= t.len(),
        marker_spec(normalize_spec(t).1).len() == 2,
{
    reveal_strlit("  ");
    reveal_strlit(" *");
    reveal_strlit("**");
    reveal_strlit("(*");
}

/// Pointer normalization strips exactly the matched trailing marker and
/// records the matching indirection category: `**` and `(*` whole, a lone
/// `*` alone; a type with no trailing star is recorded as plain and kept
/// unchanged.
pub proof fn lemma_pointer_normalization(t: Seq<char>)
    ensures
        t.len() >= 2 && t[t.len() - 1] == '*' && t[t.len() - 2] == '*' ==> normalize_spec(t) == (
        t.take(t.len() - 2), Indirection::Double),
        t.len() >= 2 && t[t.len() - 1] == '*' && t[t.len() - 2] == '(' ==> normalize_spec(t) == (
        t.take(t.len() - 2), Indirection::FuncPtr),
        t.len() >= 1 && t[t.len() - 1] == '*' && (t.len() < 2 || (t[t.len() - 2] != '*' && t[t.len()
            - 2] != '(')) ==> normalize_spec(t) == (t.take(t.len() - 1), Indirection::Pointer),
        t.len() == 0 || t[t.len() - 1] != '*' ==> normalize_spec(t) == (t, Indirection::Plain),
{
}

/// On every line the two-pass column algorithm emits for an entry whose
/// declared type is at or under the field width — in particular under the
/// clipping threshold that bounds the width — the identifier starts at
/// the same character offset: twelve columns past the type field, after
/// the indent, the font escape, the padded base type, the two-column
/// indirection marker and the italic escape.
pub proof fn lemma_column_alignment(
    p: FnParam,
    type_field_width: int,
    name_field_width: int,
    bold: bool,
    delim: Seq<char>,
)
    requires
        p.par_type@.len() <= type_field_width,
    ensures
        param_main_line(p, type_field_width, name_field_width, bold, delim).subrange(
            type_field_width + 12,
            type_field_width + 12 + p.par_name@.len(),
        ) == p.par_name@,
{
    reveal_strlit("    \\fB");
    reveal_strlit("    \\fR");
    reveal_strlit("\\fI");
    lemma_normalize_shrinks(p.par_type@);
    let base = normalize_spec(p.par_type@).0;
    assert(pad_right_spec(base, type_field_width).len() == type_field_width);
    let line = param_main_line(p, type_field_width, name_field_width, bold, delim);
    assert(line.subrange(type_field_width + 12, type_field_width + 12 + p.par_name@.len())
        =~= p.par_name@);
}

/// Short-comment inlining and block-wrapping are mutually exclusive and,
/// for a non-empty description rendered with a non-zero name field,
/// together cover it: at or under the short-comment budget (measured
/// ignoring escapes) the comment goes inline, over it the comment becomes
/// a wrapped block.
pub proof fn lemma_comment_modes(p: FnParam, name_field_width: int)
    ensures
        !(emits_block_comment(p) && emits_inline_comment(p, name_field_width)),
        unformatted_len(p.par_desc@) > 0 && name_field_width > 0 ==> (emits_block_comment(p)
            || emits_inline_comment(p, name_field_width)),
        emits_block_comment(p) <==> unformatted_len(p.par_desc@) > MAX_STRUCT_COMMENT_LEN,
{
}

/// The running column count of the block-comment wrap: whenever a word is
/// placed on a line already begun, the count stays at or under the
/// 80-column target once the word is counted; only a word that opens its
/// own fresh line may overrun it.
pub open spec fn wrap_places_ok(ws: Seq<Seq<char>>, col: int) -> bool
    decreases ws.len(),
{
    if ws.len() == 0 {
        true
    } else if col + ws[0].len() > 80 {
        wrap_places_ok(ws.drop_first(), 7)
    } else {
        col + ws[0].len() <= 80 && wrap_places_ok(ws.drop_first(), col + ws[0].len())
    }
}

/// The wrap keeps its column discipline from any starting column.
pub proof fn lemma_wrap_columns(ws: Seq<Seq<char>>, col: int)
    ensures
        wrap_places_ok(ws, col),
    decreases ws.len(),
{
    if ws.len() > 0 {
        if col + ws[0].len() > 80 {
            lemma_wrap_columns(ws.drop_first(), 7);
        } else {
            lemma_wrap_columns(ws.drop_first(), col + ws[0].len());
        }
    }
}

/// A reference identifier registered only as an unresolved placeholder
/// and never matched by any fetch does not appear in the resolved
/// collection: it is neither a complete enum nor a fetched structure, the
/// only things resolution keeps.
pub proof fn lemma_unmatched_placeholder_dropped(
    es: Seq<(String, StructureInfo)>,
    fetched: Seq<Option<(String, StructureInfo)>>,
    k: Seq<char>,
)
    requires
        forall|j: int| 0 <= j < es.len() && (#[trigger] es[j]).0@ == k ==> es[j].1.str_type
            == StructureType::Unknown,
        !fetched_key(fetched, k),
    ensures
        !(enum_key(es, k) || fetched_key(fetched, k)),
{
    lemma_no_enum_entry(es, k);
}

proof fn lemma_no_enum_entry(es: Seq<(String, StructureInfo)>, k: Seq<char>)
    requires
        forall|j: int| 0 <= j < es.len() && (#[trigger] es[j]).0@ == k ==> es[j].1.str_type
            == StructureType::Unknown,
    ensures
        !enum_key(es, k),
    decreases es.len(),
{
    if es.len() > 0 {
        assert(es[0] == es[0]);
        assert forall|j: int|
            0 <= j < es.drop_first().len() && (#[trigger] es.drop_first()[j]).0@ == k implies es
            .drop_first()[j].1.str_type == StructureType::Unknown by {
            assert(es.drop_first()[j] == es[j + 1]);
        }
        lemma_no_enum_entry(es.drop_first(), k);
    }
}

/// A document referencing structures that the resolved collection lacks
/// emits nothing for them, and when none of its references resolves the
/// whole structures section, header included, is absent.
pub proof fn lemma_missing_structures_omitted(
    refids: Seq<String>,
    es: Seq<(String, StructureInfo)>,
    seen: bool,
)
    requires
        forall|j: int| 0 <= j < refids.len() ==> entries_lookup(es, (#[trigger] refids[j])@)
            is None,
    ensures
        structures_rest_spec(refids, es, seen) == Seq::<char>::empty(),
    decreases refids.len(),
{
    if refids.len() > 0 {
        assert(refids[0] == refids[0]);
        assert forall|j: int|
            0 <= j < refids.drop_first().len() implies entries_lookup(
            es,
            (#[trigger] refids.drop_first()[j])@,
        ) is None by {
            assert(refids.drop_first()[j] == refids[j + 1]);
        }
        lemma_missing_structures_omitted(refids.drop_first(), es, seen);
    }
}

/// The sorted, deduplicated reference-identifier order is canonical:
/// any two strictly ascending lists holding the same identifiers are the
/// same list, so no incidental collection order can leak into the output.
pub proof fn lemma_refid_order_canonical(a: Seq<String>, b: Seq<String>)
    requires
        strictly_sorted(a),
        strictly_sorted(b),
        forall|k: Seq<char>| contains_id(a, k) <==> contains_id(b, k),
    ensures
        a.len() == b.len(),
        forall|j: int| 0 <= j < a.len() ==> (#[trigger] a[j])@ == b[j]@,
    decreases a.len(),
{
    if a.len() == 0 {
        if b.len() > 0 {
            assert(contains_id(b, b[0]@));
            assert(!contains_id(a, b[0]@));
        }
    } else if b.len() == 0 {
        assert(contains_id(a, a[0]@));
        assert(!contains_id(b, a[0]@));
    } else {
        // The heads agree: each list holds the other's head, and a head
        // standing anywhere but first would sit above a smaller element.
        assert(contains_id(a, a[0]@));
        assert(contains_id(b, b[0]@));
        let ia = choose|j: int| 0 <= j < b.len() && b[j]@ == a[0]@;
        let ib = choose|j: int| 0 <= j < a.len() && a[j]@ == b[0]@;
        if ia > 0 {
            assert(lex_lt(b[0]@, b[ia]@));
        }
        if ib > 0 {
            assert(lex_lt(a[0]@, a[ib]@));
        }
        if a[0]@ != b[0]@ {
            lemma_lex_asymmetric(a[0]@, b[0]@);
            lemma_lex_connected(a[0]@, b[0]@);
            assert(false);
        }
        let at = a.drop_first();
        let bt = b.drop_first();
        assert forall|j: int, l: int| 0 <= j < l < at.len() implies lex_lt(
            (#[trigger] at[j])@,
            (#[trigger] at[l])@,
        ) by {
            assert(at[j] == a[j + 1] && at[l] == a[l + 1]);
        }
        assert forall|j: int, l: int| 0 <= j < l < bt.len() implies lex_lt(
            (#[trigger] bt[j])@,
            (#[trigger] bt[l])@,
        ) by {
            assert(bt[j] == b[j + 1] && bt[l] == b[l + 1]);
        }
        assert forall|k: Seq<char>| contains_id(at, k) <==> contains_id(bt, k) by {
            if contains_id(at, k) {
                let j = choose|j: int| 0 <= j < at.len() && at[j]@ == k;
                assert(at[j] == a[j + 1]);
                assert(contains_id(a, k));
                assert(lex_lt(a[0]@, k));
                let l = choose|l: int| 0 <= l < b.len() && b[l]@ == k;
                if l == 0 {
                    lemma_lex_asymmetric(a[0]@, k);
                    assert(false);
                }
                assert(bt[l - 1]@ == k);
                assert(contains_id(bt, k));
            }
            if contains_id(bt, k) {
                let j = choose|j: int| 0 <= j < bt.len() && bt[j]@ == k;
                assert(bt[j] == b[j + 1]);
                assert(contains_id(b, k));
                assert(lex_lt(b[0]@, k));
                let l = choose|l: int| 0 <= l < a.len() && a[l]@ == k;
                if l == 0 {
                    lemma_lex_asymmetric(b[0]@, k);
                    assert(false);
                }
                assert(at[l - 1]@ == k);
                assert(contains_id(at, k));
            }
        }
        lemma_refid_order_canonical(at, bt);
        assert forall|j: int| 0 <= j < a.len() implies (#[trigger] a[j])@ == b[j]@ by {
            if j > 0 {
                assert(at[j - 1]@ == bt[j - 1]@);
            }
        }
    }
}

} // verus!
