//! The document model builder: mutually recursive collectors that drain a
//! flat, forward-only event sequence, each one entered just after the open
//! event of the element it reads and leaving just after that element's
//! matching close (its stop tag).
use vstd::prelude::*;
use crate::model::{
    Attr, Event, ParseError, FnParam, ReturnVal, StructureType, StructureInfo, HashDefine,
    FunctionInfo, StructMap, get_attr, insert_refid, strictly_sorted, contains_id, attr_value,
};
use crate::text::{str_eq, trim_end, trim, is_trimmed_end, trim_end_spec, trim_spec, lemma_trim_end_trimmed};

verus! {

/// The tags the generic inline-markup collector understands; any other
/// tag is skipped structurally, its text captured by the caller.
pub open spec fn standard_tag(name: Seq<char>) -> bool {
    ||| name == "para"@
    ||| name == "sp"@
    ||| name == "emphasis"@
    ||| name == "highlight"@
    ||| name == "computeroutput"@
    ||| name == "codeline"@
    ||| name == "programlisting"@
    ||| name == "itemizedlist"@
    ||| name == "listitem"@
    ||| name == "parameternamelist"@
    ||| name == "parameteritem"@
    ||| name == "parameterlist"@
    ||| name == "parameterdescription"@
    ||| name == "parametername"@
    ||| name == "note"@
    ||| name == "ref"@
    ||| name == "simplesect"@
    ||| name == "xreftitle"@
    ||| name == "xrefdescription"@
    ||| name == "xrefsect"@
}


/// A well-formed remainder: from `pos` on, the events close every element
/// of `stack` in order, innermost last-of-stack first, open elements are
/// closed under their own names, and the end-of-stream event comes exactly
/// when nothing is left open.
pub open spec fn wf_rem(events: Seq<Event>, pos: int, stack: Seq<Seq<char>>) -> bool
    decreases events.len() - pos,
{
    if pos < 0 || pos >= events.len() {
        false
    } else {
        match events[pos] {
            Event::Start { name, .. } => wf_rem(events, pos + 1, stack.push(name@)),
            Event::End { name } => stack.len() > 0 && name@ == stack.last() && wf_rem(
                events,
                pos + 1,
                stack.drop_last(),
            ),
            Event::Text { .. } => wf_rem(events, pos + 1, stack),
            Event::Other => wf_rem(events, pos + 1, stack),
            Event::Eof => stack.len() == 0,
        }
    }
}

/// Whether some open element bears the name.
pub open spec fn name_in(stack: Seq<Seq<char>>, n: Seq<char>) -> bool {
    exists|j: int| 0 <= j < stack.len() && stack[j] == n
}

/// Success is owed inside a well-formed element of the stop tag's name:
/// the collector cannot fail there, and it leaves the remainder
/// well-formed with everything below that element still open.
pub open spec fn collects_ok<T>(
    events: Seq<Event>,
    pos: int,
    stop: Seq<char>,
    r: Result<(usize, T), ParseError>,
) -> bool {
    forall|st0: Seq<Seq<char>>|
        #![trigger wf_rem(events, pos, st0)]
        wf_rem(events, pos, st0) && st0.len() >= 1 && st0.last() == stop ==> (r matches Ok(p)
            && exists|ext: Seq<Seq<char>>| wf_rem(events, p.0 as int, st0.drop_last() + ext))
}


/// Success owed when the collector leaves at the first close event of any
/// name rather than a particular stop tag.
pub open spec fn collects_any_ok<T>(
    events: Seq<Event>,
    pos: int,
    r: Result<(usize, T), ParseError>,
) -> bool {
    forall|st0: Seq<Seq<char>>|
        #![trigger wf_rem(events, pos, st0)]
        wf_rem(events, pos, st0) && st0.len() >= 1 ==> (r matches Ok(p) && exists|
            ext: Seq<Seq<char>>,
        | wf_rem(events, p.0 as int, st0.drop_last() + ext))
}

/// As the stop-tag guarantee, for collectors that return only a position.
pub open spec fn collects_pos_ok(
    events: Seq<Event>,
    pos: int,
    stop: Seq<char>,
    r: Result<usize, ParseError>,
) -> bool {
    forall|st0: Seq<Seq<char>>|
        #![trigger wf_rem(events, pos, st0)]
        wf_rem(events, pos, st0) && st0.len() >= 1 && st0.last() == stop ==> (r matches Ok(np)
            && exists|ext: Seq<Seq<char>>| wf_rem(events, np as int, st0.drop_last() + ext))
}

/// A consumed element: whatever well-formed stack the element's open event
/// was entered under, the remainder at `np` is the same stack with the
/// element's own frame replaced by zero or more still-open frames.
pub open spec fn consumed_ok(events: Seq<Event>, pos: int, np: int, nm: Seq<char>) -> bool {
    forall|st: Seq<Seq<char>>|
        #![trigger wf_rem(events, pos, st)]
        wf_rem(events, pos, st) && st.len() >= 1 && st.last() == nm ==> exists|
            ext: Seq<Seq<char>>,
        | wf_rem(events, np, st.drop_last() + ext)
}

/// The walking collector's bookkeeping: below the entered element's frame
/// nothing has been touched, and when the collector looks for its stop tag
/// that tag is still open.
pub open spec fn tracks(
    events: Seq<Event>,
    pos: int,
    i: int,
    stop: Seq<char>,
    named: bool,
) -> bool {
    forall|st0: Seq<Seq<char>>|
        #![trigger wf_rem(events, pos, st0)]
        wf_rem(events, pos, st0) && st0.len() >= 1 && (named ==> st0.last() == stop) ==> exists|
            ext: Seq<Seq<char>>,
        |
        {
            &&& #[trigger] wf_rem(events, i, st0.drop_last() + ext)
            &&& ext.len() >= 1
            &&& (named ==> name_in(ext, stop))
        }
}

proof fn lemma_tracks_init(events: Seq<Event>, pos: int, stop: Seq<char>, named: bool)
    ensures
        tracks(events, pos, pos, stop, named),
{
    assert forall|st0: Seq<Seq<char>>|
        #![trigger wf_rem(events, pos, st0)]
        wf_rem(events, pos, st0) && st0.len() >= 1 && (named ==> st0.last() == stop) implies exists|
        ext: Seq<Seq<char>>,
    |
    {
        &&& #[trigger] wf_rem(events, pos, st0.drop_last() + ext)
        &&& ext.len() >= 1
        &&& (named ==> name_in(ext, stop))
    } by {
        let w = seq![st0.last()];
        assert(st0.drop_last() + w =~= st0);
        assert(wf_rem(events, pos, st0.drop_last() + w));
        if named {
            assert(w[0] == stop);
            assert(name_in(w, stop));
        }
        assert(exists|ext: Seq<Seq<char>>|
            {
                &&& #[trigger] wf_rem(events, pos, st0.drop_last() + ext)
                &&& ext.len() >= 1
                &&& (named ==> name_in(ext, stop))
            });
    }
}

proof fn lemma_tracks_skip(events: Seq<Event>, pos: int, i: int, stop: Seq<char>, named: bool)
    requires
        tracks(events, pos, i, stop, named),
        0 <= i < events.len(),
        events[i] is Text || events[i] is Other,
    ensures
        tracks(events, pos, i + 1, stop, named),
{
    assert forall|st0: Seq<Seq<char>>|
        #![trigger wf_rem(events, pos, st0)]
        wf_rem(events, pos, st0) && st0.len() >= 1 && (named ==> st0.last() == stop) implies exists|
        ext: Seq<Seq<char>>,
    |
    {
        &&& #[trigger] wf_rem(events, i + 1, st0.drop_last() + ext)
        &&& ext.len() >= 1
        &&& (named ==> name_in(ext, stop))
    } by {
        let ext = choose|ext: Seq<Seq<char>>|
            {
                &&& #[trigger] wf_rem(events, i, st0.drop_last() + ext)
                &&& ext.len() >= 1
                &&& (named ==> name_in(ext, stop))
            };
        assert(wf_rem(events, i + 1, st0.drop_last() + ext));
        assert(exists|ext: Seq<Seq<char>>|
            {
                &&& #[trigger] wf_rem(events, i + 1, st0.drop_last() + ext)
                &&& ext.len() >= 1
                &&& (named ==> name_in(ext, stop))
            });
    }
}

proof fn lemma_tracks_start_skipped(
    events: Seq<Event>,
    pos: int,
    i: int,
    stop: Seq<char>,
    named: bool,
    nm: Seq<char>,
)
    requires
        tracks(events, pos, i, stop, named),
        0 <= i < events.len(),
        events[i] matches Event::Start { name, .. } && name@ == nm,
    ensures
        tracks(events, pos, i + 1, stop, named),
{
    assert forall|st0: Seq<Seq<char>>|
        #![trigger wf_rem(events, pos, st0)]
        wf_rem(events, pos, st0) && st0.len() >= 1 && (named ==> st0.last() == stop) implies exists|
        ext: Seq<Seq<char>>,
    |
    {
        &&& #[trigger] wf_rem(events, i + 1, st0.drop_last() + ext)
        &&& ext.len() >= 1
        &&& (named ==> name_in(ext, stop))
    } by {
        let ext = choose|ext: Seq<Seq<char>>|
            {
                &&& #[trigger] wf_rem(events, i, st0.drop_last() + ext)
                &&& ext.len() >= 1
                &&& (named ==> name_in(ext, stop))
            };
        let cur = st0.drop_last() + ext;
        assert(wf_rem(events, i + 1, cur.push(nm)));
        let extn = ext.push(nm);
        assert(st0.drop_last() + extn =~= cur.push(nm));
        assert(wf_rem(events, i + 1, st0.drop_last() + extn));
        if named {
            let j = choose|j: int| 0 <= j < ext.len() && ext[j] == stop;
            assert(extn[j] == stop);
            assert(name_in(extn, stop));
        }
        assert(exists|ext: Seq<Seq<char>>|
            {
                &&& #[trigger] wf_rem(events, i + 1, st0.drop_last() + ext)
                &&& ext.len() >= 1
                &&& (named ==> name_in(ext, stop))
            });
    }
}

proof fn lemma_tracks_start_consumed(
    events: Seq<Event>,
    pos: int,
    i: int,
    np: int,
    stop: Seq<char>,
    named: bool,
    nm: Seq<char>,
)
    requires
        tracks(events, pos, i, stop, named),
        0 <= i < events.len(),
        events[i] matches Event::Start { name, .. } && name@ == nm,
        consumed_ok(events, i + 1, np, nm),
    ensures
        tracks(events, pos, np, stop, named),
{
    assert forall|st0: Seq<Seq<char>>|
        #![trigger wf_rem(events, pos, st0)]
        wf_rem(events, pos, st0) && st0.len() >= 1 && (named ==> st0.last() == stop) implies exists|
        ext: Seq<Seq<char>>,
    |
    {
        &&& #[trigger] wf_rem(events, np, st0.drop_last() + ext)
        &&& ext.len() >= 1
        &&& (named ==> name_in(ext, stop))
    } by {
        let ext = choose|ext: Seq<Seq<char>>|
            {
                &&& #[trigger] wf_rem(events, i, st0.drop_last() + ext)
                &&& ext.len() >= 1
                &&& (named ==> name_in(ext, stop))
            };
        let cur = st0.drop_last() + ext;
        assert(wf_rem(events, i + 1, cur.push(nm)));
        assert(cur.push(nm).len() >= 1 && cur.push(nm).last() == nm);
        let ext2 = choose|ext2: Seq<Seq<char>>|
            #[trigger] wf_rem(events, np, cur.push(nm).drop_last() + ext2);
        assert(cur.push(nm).drop_last() =~= cur);
        assert(wf_rem(events, np, cur + ext2));
        let extn = ext + ext2;
        assert(st0.drop_last() + extn =~= cur + ext2);
        assert(wf_rem(events, np, st0.drop_last() + extn));
        if named {
            let j = choose|j: int| 0 <= j < ext.len() && ext[j] == stop;
            assert(extn[j] == stop);
            assert(name_in(extn, stop));
        }
        assert(exists|ext: Seq<Seq<char>>|
            {
                &&& #[trigger] wf_rem(events, np, st0.drop_last() + ext)
                &&& ext.len() >= 1
                &&& (named ==> name_in(ext, stop))
            });
    }
}

proof fn lemma_tracks_end_skipped(
    events: Seq<Event>,
    pos: int,
    i: int,
    stop: Seq<char>,
    nm: Seq<char>,
)
    requires
        tracks(events, pos, i, stop, true),
        0 <= i < events.len(),
        events[i] matches Event::End { name } && name@ == nm,
        nm != stop,
    ensures
        tracks(events, pos, i + 1, stop, true),
{
    assert forall|st0: Seq<Seq<char>>|
        #![trigger wf_rem(events, pos, st0)]
        wf_rem(events, pos, st0) && st0.len() >= 1 && st0.last() == stop implies exists|
        ext: Seq<Seq<char>>,
    |
    {
        &&& #[trigger] wf_rem(events, i + 1, st0.drop_last() + ext)
        &&& ext.len() >= 1
        &&& name_in(ext, stop)
    } by {
        let ext = choose|ext: Seq<Seq<char>>|
            {
                &&& #[trigger] wf_rem(events, i, st0.drop_last() + ext)
                &&& ext.len() >= 1
                &&& name_in(ext, stop)
            };
        let cur = st0.drop_last() + ext;
        assert(cur.last() == ext.last());
        assert(ext.last() == nm);
        let j = choose|j: int| 0 <= j < ext.len() && ext[j] == stop;
        assert(j < ext.len() - 1);
        let extn = ext.drop_last();
        assert(extn[j] == stop);
        assert(name_in(extn, stop));
        assert(cur.drop_last() =~= st0.drop_last() + extn);
        assert(wf_rem(events, i + 1, st0.drop_last() + extn));
        assert(exists|ext: Seq<Seq<char>>|
            {
                &&& #[trigger] wf_rem(events, i + 1, st0.drop_last() + ext)
                &&& ext.len() >= 1
                &&& name_in(ext, stop)
            });
    }
}

proof fn lemma_tracks_end_returns(
    events: Seq<Event>,
    pos: int,
    i: int,
    stop: Seq<char>,
    named: bool,
)
    requires
        tracks(events, pos, i, stop, named),
        0 <= i < events.len(),
        events[i] is End,
    ensures
        forall|st0: Seq<Seq<char>>|
            #![trigger wf_rem(events, pos, st0)]
            wf_rem(events, pos, st0) && st0.len() >= 1 && (named ==> st0.last() == stop)
                ==> exists|ext: Seq<Seq<char>>| wf_rem(events, i + 1, st0.drop_last() + ext),
{
    assert forall|st0: Seq<Seq<char>>|
        #![trigger wf_rem(events, pos, st0)]
        wf_rem(events, pos, st0) && st0.len() >= 1 && (named ==> st0.last() == stop) implies exists|
        ext: Seq<Seq<char>>,
    | #[trigger] wf_rem(events, i + 1, st0.drop_last() + ext) by {
        let ext = choose|ext: Seq<Seq<char>>|
            {
                &&& #[trigger] wf_rem(events, i, st0.drop_last() + ext)
                &&& ext.len() >= 1
                &&& (named ==> name_in(ext, stop))
            };
        let cur = st0.drop_last() + ext;
        assert(cur.last() == ext.last());
        assert(cur.drop_last() =~= st0.drop_last() + ext.drop_last());
        assert(wf_rem(events, i + 1, st0.drop_last() + ext.drop_last()));
        assert(exists|ext: Seq<Seq<char>>|
            #[trigger] wf_rem(events, i + 1, st0.drop_last() + ext));
    }
}

proof fn lemma_tracks_no_eof(events: Seq<Event>, pos: int, i: int, stop: Seq<char>, named: bool)
    requires
        tracks(events, pos, i, stop, named),
        0 <= i < events.len() ==> events[i] is Eof,
    ensures
        forall|st0: Seq<Seq<char>>|
            #![trigger wf_rem(events, pos, st0)]
            !(wf_rem(events, pos, st0) && st0.len() >= 1 && (named ==> st0.last() == stop)),
{
    assert forall|st0: Seq<Seq<char>>|
        !(wf_rem(events, pos, st0) && st0.len() >= 1 && (named ==> st0.last() == stop)) by {
        if wf_rem(events, pos, st0) && st0.len() >= 1 && (named ==> st0.last() == stop) {
            let ext = choose|ext: Seq<Seq<char>>|
                {
                    &&& #[trigger] wf_rem(events, i, st0.drop_last() + ext)
                    &&& ext.len() >= 1
                    &&& (named ==> name_in(ext, stop))
                };
            assert((st0.drop_last() + ext).len() >= 1);
        }
    }
}

proof fn lemma_tracks_inner_open(
    events: Seq<Event>,
    pos: int,
    i: int,
    stop: Seq<char>,
    named: bool,
    nm: Seq<char>,
)
    requires
        tracks(events, pos, i, stop, named),
        0 <= i < events.len(),
        events[i] matches Event::Start { name, .. } && name@ == nm,
    ensures
        forall|st0: Seq<Seq<char>>|
            #![trigger wf_rem(events, pos, st0)]
            (wf_rem(events, pos, st0) && st0.len() >= 1 && (named ==> st0.last() == stop))
                ==> exists|st1: Seq<Seq<char>>|
                #![trigger wf_rem(events, i + 1, st1)]
                wf_rem(events, i + 1, st1) && st1.len() >= 1 && st1.last() == nm,
{
    assert forall|st0: Seq<Seq<char>>|
        #![trigger wf_rem(events, pos, st0)]
        (wf_rem(events, pos, st0) && st0.len() >= 1 && (named ==> st0.last()
            == stop)) implies exists|st1: Seq<Seq<char>>|
        #![trigger wf_rem(events, i + 1, st1)]
        wf_rem(events, i + 1, st1) && st1.len() >= 1 && st1.last() == nm by {
        let ext = choose|ext: Seq<Seq<char>>|
            {
                &&& #[trigger] wf_rem(events, i, st0.drop_last() + ext)
                &&& ext.len() >= 1
                &&& (named ==> name_in(ext, stop))
            };
        let cur = st0.drop_last() + ext;
        assert(wf_rem(events, i + 1, cur.push(nm)));
        assert(cur.push(nm).len() >= 1 && cur.push(nm).last() == nm);
    }
}

proof fn lemma_collects_to_consumed<T>(
    events: Seq<Event>,
    pos: int,
    nm: Seq<char>,
    r: Result<(usize, T), ParseError>,
    np: int,
)
    requires
        collects_ok(events, pos, nm, r),
        r matches Ok(p) && p.0 == np,
    ensures
        consumed_ok(events, pos, np, nm),
{
}

proof fn lemma_collects_any_to_consumed<T>(
    events: Seq<Event>,
    pos: int,
    nm: Seq<char>,
    r: Result<(usize, T), ParseError>,
    np: int,
)
    requires
        collects_any_ok(events, pos, r),
        r matches Ok(p) && p.0 == np,
    ensures
        consumed_ok(events, pos, np, nm),
{
}

proof fn lemma_collects_pos_to_consumed(
    events: Seq<Event>,
    pos: int,
    nm: Seq<char>,
    r: Result<usize, ParseError>,
    np: int,
)
    requires
        collects_pos_ok(events, pos, nm, r),
        r matches Ok(n) && n == np,
    ensures
        consumed_ok(events, pos, np, nm),
{
}


/// The recognized tags whose content is gathered through the main text
/// collector; `sp` stands alone: it is an empty element rendered as one
/// blank without consuming anything.
pub open spec fn collecting_tag(name: Seq<char>) -> bool {
    standard_tag(name) && name != "sp"@
}

/// The one-to-one translation a recognized element's collected content
/// receives when the element closes: emphasis and abnormal highlights in
/// bold escapes, program listings between literal-block markers, list
/// items behind bullets, notes with a break, cross-reference sections
/// dropped, everything else passed through.
pub open spec fn wrap_tag(name: Seq<char>, attrs: Seq<Attr>, inner: Seq<char>) -> Seq<char> {
    if name == "emphasis"@ {
        "\\fB"@ + inner + "\\fR"@
    } else if name == "highlight"@ {
        if attr_value(attrs, "class"@) != "normal"@ {
            "\\fB"@ + inner + "\\fR"@
        } else {
            inner
        }
    } else if name == "programlisting"@ {
        "\n.nf\n"@ + inner + "\n.fi\n"@
    } else if name == "itemizedlist"@ {
        seq!['\n'] + inner + seq!['\n']
    } else if name == "listitem"@ {
        "\n* "@ + inner
    } else if name == "note"@ {
        inner + seq!['\n']
    } else if name == "xreftitle"@ || name == "xrefdescription"@ || name == "xrefsect"@ {
        Seq::<char>::empty()
    } else {
        inner
    }
}

/// Where the text collector leaves off, one machine step per event: the
/// innermost open element is `stack.last()`; a collected child pushes a
/// frame, its close pops it, a close matching the outermost frame is the
/// collector's own stop tag and ends the walk just past it; a stream that
/// runs out first yields the failure position -1.
pub open spec fn scan_end(events: Seq<Event>, pos: int, stack: Seq<Seq<char>>) -> int
    decreases events.len() - pos,
{
    if pos < 0 || pos >= events.len() {
        -1
    } else {
        match events[pos] {
            Event::Start { name, .. } => if collecting_tag(name@) {
                scan_end(events, pos + 1, stack.push(name@))
            } else {
                scan_end(events, pos + 1, stack)
            },
            Event::End { name } => if stack.len() >= 1 && name@ == stack.last() {
                if stack.len() == 1 {
                    pos + 1
                } else {
                    scan_end(events, pos + 1, stack.drop_last())
                }
            } else {
                scan_end(events, pos + 1, stack)
            },
            Event::Text { .. } => scan_end(events, pos + 1, stack),
            Event::Other => scan_end(events, pos + 1, stack),
            Event::Eof => -1,
        }
    }
}

/// Where the text collector entered at `pos` inside an element named
/// `stop` leaves off, or -1 when the stream ends inside it.
pub open spec fn text_end(events: Seq<Event>, pos: int, stop: Seq<char>) -> int {
    scan_end(events, pos, seq![stop])
}

pub proof fn lemma_scan_end_bounds(events: Seq<Event>, pos: int, stack: Seq<Seq<char>>)
    ensures
        scan_end(events, pos, stack) == -1 || pos < scan_end(events, pos, stack)
            <= events.len(),
    decreases events.len() - pos,
{
    if 0 <= pos < events.len() {
        match events[pos] {
            Event::Start { name, .. } => {
                if collecting_tag(name@) {
                    lemma_scan_end_bounds(events, pos + 1, stack.push(name@));
                } else {
                    lemma_scan_end_bounds(events, pos + 1, stack);
                }
            },
            Event::End { name } => {
                if stack.len() >= 1 && name@ == stack.last() {
                    if stack.len() > 1 {
                        lemma_scan_end_bounds(events, pos + 1, stack.drop_last());
                    }
                } else {
                    lemma_scan_end_bounds(events, pos + 1, stack);
                }
            },
            Event::Text { .. } => {
                lemma_scan_end_bounds(events, pos + 1, stack);
            },
            Event::Other => {
                lemma_scan_end_bounds(events, pos + 1, stack);
            },
            Event::Eof => {},
        }
    }
}

/// Entering a collected child is the same as running the child's own walk
/// to its end and carrying on from there.
pub proof fn lemma_scan_push(events: Seq<Event>, pos: int, stack: Seq<Seq<char>>, t: Seq<char>)
    requires
        stack.len() >= 1,
    ensures
        scan_end(events, pos, stack.push(t)) == (if text_end(events, pos, t) < 0 {
            -1int
        } else {
            scan_end(events, text_end(events, pos, t), stack)
        }),
    decreases events.len() - pos,
{
    if 0 <= pos < events.len() {
        match events[pos] {
            Event::Start { name, .. } => {
                if collecting_tag(name@) {
                    assert(seq![t].push(name@).drop_last() =~= seq![t]);
                    assert(stack.push(t).push(name@).drop_last() =~= stack.push(t));
                    lemma_scan_push(events, pos + 1, stack.push(t), name@);
                    lemma_scan_push(events, pos + 1, seq![t], name@);
                    let e1 = text_end(events, pos + 1, name@);
                    if e1 >= 0 {
                        lemma_scan_end_bounds(events, pos + 1, seq![name@]);
                        lemma_scan_push(events, e1, stack, t);
                    }
                } else {
                    lemma_scan_push(events, pos + 1, stack, t);
                }
            },
            Event::End { name } => {
                if name@ == t {
                    assert(stack.push(t).drop_last() =~= stack);
                } else {
                    lemma_scan_push(events, pos + 1, stack, t);
                }
            },
            Event::Text { .. } => {
                lemma_scan_push(events, pos + 1, stack, t);
            },
            Event::Other => {
                lemma_scan_push(events, pos + 1, stack, t);
            },
            Event::Eof => {},
        }
    }
}

/// The text the collector has gathered when it leaves: character data and
/// translated children appended to `acc` in order, right-trimmed at the
/// stop tag; where the walk cannot finish the value is immaterial.
pub open spec fn text_val_acc(events: Seq<Event>, pos: int, stop: Seq<char>, acc: Seq<char>) -> Seq<
    char,
>
    decreases events.len() - pos,
    via text_val_acc_dec
{
    if pos < 0 || pos >= events.len() {
        acc
    } else {
        match events[pos] {
            Event::Start { name, attrs } => if name@ == "sp"@ {
                text_val_acc(events, pos + 1, stop, acc + " "@)
            } else if collecting_tag(name@) {
                if text_end(events, pos + 1, name@) < 0 {
                    acc
                } else {
                    text_val_acc(
                        events,
                        text_end(events, pos + 1, name@),
                        stop,
                        acc + wrap_tag(
                            name@,
                            attrs@,
                            text_val_acc(events, pos + 1, name@, Seq::empty()),
                        ),
                    )
                }
            } else {
                text_val_acc(events, pos + 1, stop, acc)
            },
            Event::End { name } => if name@ == stop {
                trim_end_spec(acc)
            } else {
                text_val_acc(events, pos + 1, stop, acc)
            },
            Event::Text { text } => text_val_acc(events, pos + 1, stop, acc + text@),
            Event::Other => text_val_acc(events, pos + 1, stop, acc),
            Event::Eof => acc,
        }
    }
}

#[via_fn]
proof fn text_val_acc_dec(events: Seq<Event>, pos: int, stop: Seq<char>, acc: Seq<char>) {
    if 0 <= pos < events.len() {
        match events[pos] {
            Event::Start { name, .. } => {
                lemma_scan_end_bounds(events, pos + 1, seq![name@]);
            },
            _ => {},
        }
    }
}

/// The collected, right-trimmed text of the element entered at `pos` and
/// closed by `stop`.
pub open spec fn text_val(events: Seq<Event>, pos: int, stop: Seq<char>) -> Seq<char> {
    text_val_acc(events, pos, stop, Seq::empty())
}

/// Where the inline-markup dispatcher leaves off: past the element's close
/// for a collected tag, in place for the empty `sp` and for anything
/// unrecognized.
pub open spec fn std_elem_end(events: Seq<Event>, pos: int, name: Seq<char>) -> int {
    if collecting_tag(name) {
        text_end(events, pos, name)
    } else {
        pos
    }
}

/// What the inline-markup dispatcher hands back for one element: a single
/// blank for `sp`, nothing for an unrecognized tag, and the translated
/// collected content for everything it knows.
pub open spec fn std_elem_val(
    events: Seq<Event>,
    pos: int,
    name: Seq<char>,
    attrs: Seq<Attr>,
) -> Seq<char> {
    if name == "sp"@ {
        " "@
    } else if !standard_tag(name) {
        Seq::<char>::empty()
    } else {
        wrap_tag(name, attrs, text_val(events, pos, name))
    }
}

/// This is the main text-collecting routine, entered after the open event
/// of the element named `stop`; it drains events up to and including that
/// element's close and returns the collected text, right-trimmed.
pub fn collect_text(events: &Vec<Event>, pos: usize, stop: &str) -> (r: Result<
    (usize, String),
    ParseError,
>)
    requires
        pos <= events@.len(),
    ensures
        r matches Ok(p) ==> pos < p.0 <= events@.len() && is_trimmed_end(p.1@),
        r matches Ok(p) ==> (events@[p.0 - 1] matches Event::End { name } && name@ == stop@),
        collects_ok(events@, pos as int, stop@, r),
        r is Ok <==> text_end(events@, pos as int, stop@) >= 0,
        r matches Ok(p) ==> p.0 == text_end(events@, pos as int, stop@) && p.1@ == text_val(
            events@,
            pos as int,
            stop@,
        ),
    decreases events@.len() - pos, 0int,
{
    let mut text = String::new();
    let mut i = pos;
    proof {
        assert forall|st0: Seq<Seq<char>>|
            wf_rem(events@, pos as int, st0) && st0.len() >= 1 && st0.last() == stop@
                implies exists|ext: Seq<Seq<char>>|
            {
                &&& wf_rem(events@, pos as int, st0.drop_last() + ext)
                &&& ext.len() >= 1
                &&& name_in(ext, stop@)
            } by {
            let w = seq![stop@];
            assert(st0.drop_last() + w =~= st0);
            assert(w[0] == stop@);
            assert(name_in(w, stop@));
            assert(wf_rem(events@, pos as int, st0.drop_last() + w) && w.len() >= 1 && name_in(
                w,
                stop@,
            ));
        }
    }
    while i < events.len()
        invariant
            pos <= i <= events@.len(),
            text_end(events@, pos as int, stop@) == text_end(events@, i as int, stop@),
            text_val_acc(events@, pos as int, stop@, Seq::empty()) == text_val_acc(
                events@,
                i as int,
                stop@,
                text@,
            ),
            forall|st0: Seq<Seq<char>>|
                #![trigger wf_rem(events@, pos as int, st0)]
                wf_rem(events@, pos as int, st0) && st0.len() >= 1 && st0.last() == stop@
                    ==> exists|ext: Seq<Seq<char>>|
                    {
                        &&& wf_rem(events@, i as int, st0.drop_last() + ext)
                        &&& ext.len() >= 1
                        &&& name_in(ext, stop@)
                    },
        decreases events@.len() - i,
    {
        let ghost evs = events@;
        match &events[i] {
            Event::Start { name, attrs } => {
                let ghost nm = name@;
                let ghost ats = attrs@;
                proof {
                    if collecting_tag(nm) {
                        lemma_scan_push(evs, (i + 1) as int, seq![stop@], nm);
                    }
                }
                match parse_standard_elements(events, i + 1, name.as_str(), attrs) {
                    Ok((np, t)) => {
                        proof {
                            if collecting_tag(nm) {
                                assert(text_end(evs, (i + 1) as int, nm) == np);
                                assert(text_end(evs, i as int, stop@) == text_end(
                                    evs,
                                    np as int,
                                    stop@,
                                ));
                                assert(text_val_acc(evs, i as int, stop@, text@) == text_val_acc(
                                    evs,
                                    np as int,
                                    stop@,
                                    text@ + wrap_tag(nm, ats, text_val(evs, (i + 1) as int, nm)),
                                ));
                                assert(t@ == wrap_tag(nm, ats, text_val(evs, (i + 1) as int, nm)));
                            } else {
                                assert(np == i + 1);
                                if nm == "sp"@ {
                                    assert(t@ == " "@);
                                } else {
                                    assert(t@ =~= Seq::<char>::empty());
                                }
                            }
                            assert((text@ + t@) =~= text@ + t@);
                            assert forall|st0: Seq<Seq<char>>|
                                wf_rem(evs, pos as int, st0) && st0.len() >= 1 && st0.last()
                                    == stop@ implies exists|ext: Seq<Seq<char>>|
                                {
                                    &&& wf_rem(evs, np as int, st0.drop_last() + ext)
                                    &&& ext.len() >= 1
                                    &&& name_in(ext, stop@)
                                } by {
                                let ext = choose|ext: Seq<Seq<char>>|
                                    {
                                        &&& wf_rem(evs, i as int, st0.drop_last() + ext)
                                        &&& ext.len() >= 1
                                        &&& name_in(ext, stop@)
                                    };
                                let cur = st0.drop_last() + ext;
                                assert(wf_rem(evs, i + 1, cur.push(nm)));
                                assert(cur.push(nm).len() >= 1 && cur.push(nm).last() == nm);
                                assert(wf_rem(evs, (i + 1) as int, cur.push(nm)));
                                let ext2 = choose|ext2: Seq<Seq<char>>|
                                    wf_rem(evs, np as int, cur.push(nm).drop_last() + ext2);
                                assert(cur.push(nm).drop_last() =~= cur);
                                assert(wf_rem(evs, np as int, cur + ext2));
                                let extn = ext + ext2;
                                assert(st0.drop_last() + extn =~= cur + ext2);
                                assert(name_in(extn, stop@)) by {
                                    let j = choose|j: int|
                                        0 <= j < ext.len() && ext[j] == stop@;
                                    assert(extn[j] == stop@);
                                }
                                assert(wf_rem(evs, np as int, st0.drop_last() + extn)
                                    && extn.len() >= 1 && name_in(extn, stop@));
                            }
                        }
                        text.append(t.as_str());
                        i = np;
                    },
                    Err(e) => {
                        proof {
                            assert(collecting_tag(nm) && text_end(evs, (i + 1) as int, nm) < 0);
                            assert(text_end(evs, i as int, stop@) == -1);
                            assert forall|st0: Seq<Seq<char>>|
                                #![trigger wf_rem(evs, pos as int, st0)]
                                !(wf_rem(evs, pos as int, st0) && st0.len() >= 1 && st0.last()
                                    == stop@) by {
                                if wf_rem(evs, pos as int, st0) && st0.len() >= 1 && st0.last()
                                    == stop@ {
                                    let ext = choose|ext: Seq<Seq<char>>|
                                        {
                                            &&& wf_rem(evs, i as int, st0.drop_last() + ext)
                                            &&& ext.len() >= 1
                                            &&& name_in(ext, stop@)
                                        };
                                    let cur = st0.drop_last() + ext;
                                    assert(wf_rem(evs, i + 1, cur.push(nm)));
                                    assert(cur.push(nm).last() == nm);
                                }
                            }
                        }
                        return Err(e);
                    },
                }
            },
            Event::Text { text: t } => {
                proof {
                    assert forall|st0: Seq<Seq<char>>|
                        wf_rem(evs, pos as int, st0) && st0.len() >= 1 && st0.last() == stop@
                            implies exists|ext: Seq<Seq<char>>|
                        {
                            &&& wf_rem(evs, (i + 1) as int, st0.drop_last() + ext)
                            &&& ext.len() >= 1
                            &&& name_in(ext, stop@)
                        } by {
                        let ext = choose|ext: Seq<Seq<char>>|
                            {
                                &&& wf_rem(evs, i as int, st0.drop_last() + ext)
                                &&& ext.len() >= 1
                                &&& name_in(ext, stop@)
                            };
                        assert(wf_rem(evs, (i + 1) as int, st0.drop_last() + ext));
                    }
                }
                text.append(t.as_str());
                i = i + 1;
            },
            Event::End { name } => {
                let ghost nm = name@;
                // Only return if we are at the end of the element that
                // called us.
                if str_eq(name.as_str(), stop) {
                    let trimmed = trim_end(text.as_str());
                    proof {
                        lemma_trim_end_trimmed(text@);
                        assert forall|st0: Seq<Seq<char>>|
                            wf_rem(evs, pos as int, st0) && st0.len() >= 1 && st0.last() == stop@
                                implies exists|ext: Seq<Seq<char>>|
                            wf_rem(evs, (i + 1) as int, st0.drop_last() + ext) by {
                            let ext = choose|ext: Seq<Seq<char>>|
                                {
                                    &&& wf_rem(evs, i as int, st0.drop_last() + ext)
                                    &&& ext.len() >= 1
                                    &&& name_in(ext, stop@)
                                };
                            let cur = st0.drop_last() + ext;
                            assert(cur.last() == ext.last());
                            assert(wf_rem(evs, (i + 1) as int, cur.drop_last()));
                            assert(cur.drop_last() =~= st0.drop_last() + ext.drop_last());
                            assert(wf_rem(evs, (i + 1) as int, st0.drop_last() + ext.drop_last()));
                        }
                    }
                    return Ok((i + 1, trimmed));
                }
                proof {
                    assert forall|st0: Seq<Seq<char>>|
                        wf_rem(evs, pos as int, st0) && st0.len() >= 1 && st0.last() == stop@
                            implies exists|ext: Seq<Seq<char>>|
                        {
                            &&& wf_rem(evs, (i + 1) as int, st0.drop_last() + ext)
                            &&& ext.len() >= 1
                            &&& name_in(ext, stop@)
                        } by {
                        let ext = choose|ext: Seq<Seq<char>>|
                            {
                                &&& wf_rem(evs, i as int, st0.drop_last() + ext)
                                &&& ext.len() >= 1
                                &&& name_in(ext, stop@)
                            };
                        let cur = st0.drop_last() + ext;
                        assert(cur.last() == ext.last());
                        assert(ext.last() == nm && nm != stop@);
                        let j = choose|j: int| 0 <= j < ext.len() && ext[j] == stop@;
                        assert(j < ext.len() - 1);
                        let extn = ext.drop_last();
                        assert(extn[j] == stop@);
                        assert(name_in(extn, stop@));
                        assert(cur.drop_last() =~= st0.drop_last() + extn);
                        assert(wf_rem(evs, (i + 1) as int, st0.drop_last() + extn) && extn.len()
                            >= 1 && name_in(extn, stop@));
                    }
                }
                i = i + 1;
            },
            Event::Eof => {
                proof {
                    assert forall|st0: Seq<Seq<char>>|
                        #![trigger wf_rem(evs, pos as int, st0)]
                        !(wf_rem(evs, pos as int, st0) && st0.len() >= 1 && st0.last() == stop@) by {
                        if wf_rem(evs, pos as int, st0) && st0.len() >= 1 && st0.last() == stop@ {
                            let ext = choose|ext: Seq<Seq<char>>|
                                {
                                    &&& wf_rem(evs, i as int, st0.drop_last() + ext)
                                    &&& ext.len() >= 1
                                    &&& name_in(ext, stop@)
                                };
                            assert((st0.drop_last() + ext).len() == 0);
                        }
                    }
                }
                return Err(ParseError::Truncated);
            },
            Event::Other => {
                proof {
                    assert forall|st0: Seq<Seq<char>>|
                        wf_rem(evs, pos as int, st0) && st0.len() >= 1 && st0.last() == stop@
                            implies exists|ext: Seq<Seq<char>>|
                        {
                            &&& wf_rem(evs, (i + 1) as int, st0.drop_last() + ext)
                            &&& ext.len() >= 1
                            &&& name_in(ext, stop@)
                        } by {
                        let ext = choose|ext: Seq<Seq<char>>|
                            {
                                &&& wf_rem(evs, i as int, st0.drop_last() + ext)
                                &&& ext.len() >= 1
                                &&& name_in(ext, stop@)
                            };
                        assert(wf_rem(evs, (i + 1) as int, st0.drop_last() + ext));
                    }
                }
                i = i + 1;
            },
        }
    }
    proof {
        assert forall|st0: Seq<Seq<char>>|
            #![trigger wf_rem(events@, pos as int, st0)]
            !(wf_rem(events@, pos as int, st0) && st0.len() >= 1 && st0.last() == stop@) by {}
    }
    Err(ParseError::Truncated)
}

/// Do the easy/common tags here: each recognized inline-markup element is
/// collected recursively and turned into its escape sequence one-to-one;
/// an unrecognized tag consumes nothing and yields nothing.
#[verifier::rlimit(100)]
#[verifier::spinoff_prover]
pub fn parse_standard_elements(events: &Vec<Event>, pos: usize, name: &str, attrs: &Vec<Attr>) -> (r:
    Result<(usize, String), ParseError>)
    requires
        pos <= events@.len(),
    ensures
        r matches Ok(p) ==> pos <= p.0 <= events@.len(),
        !standard_tag(name@) ==> (r matches Ok(p) ==> p.0 == pos && p.1@ == Seq::<char>::empty()),
        collects_ok(events@, pos as int, name@, r),
        r is Ok <==> std_elem_end(events@, pos as int, name@) >= 0,
        r matches Ok(p) ==> p.0 == std_elem_end(events@, pos as int, name@) && p.1@ == std_elem_val(
            events@,
            pos as int,
            name@,
            attrs@,
        ),
    decreases events@.len() - pos, 1int,
{
    proof {
        reveal_strlit("para");
        reveal_strlit("sp");
        reveal_strlit("emphasis");
        reveal_strlit("highlight");
        reveal_strlit("computeroutput");
        reveal_strlit("codeline");
        reveal_strlit("programlisting");
        reveal_strlit("itemizedlist");
        reveal_strlit("listitem");
        reveal_strlit("parameternamelist");
        reveal_strlit("parameteritem");
        reveal_strlit("parameterlist");
        reveal_strlit("parameterdescription");
        reveal_strlit("parametername");
        reveal_strlit("note");
        reveal_strlit("ref");
        reveal_strlit("simplesect");
        reveal_strlit("xreftitle");
        reveal_strlit("xrefdescription");
        reveal_strlit("xrefsect");
        reveal_strlit("\n");
        reveal_strlit(" ");
        reveal_strlit("\n* ");
        reveal_strlit("\\fB");
        reveal_strlit("\\fR");
        reveal_strlit("\n.nf\n");
        reveal_strlit("\n.fi\n");
        assert("para"@.len() == 4);
        assert("sp"@.len() == 2);
        assert("para"@ != "sp"@);
        assert("computeroutput"@.len() == 14);
        assert("computeroutput"@ != "sp"@);
        assert("codeline"@.len() == 8);
        assert("codeline"@ != "sp"@);
        assert("parameternamelist"@.len() == 17);
        assert("parameternamelist"@ != "sp"@);
        assert("parameteritem"@.len() == 13);
        assert("parameteritem"@ != "sp"@);
        assert("parameterlist"@.len() == 13);
        assert("parameterlist"@ != "sp"@);
        assert("parameterdescription"@.len() == 20);
        assert("parameterdescription"@ != "sp"@);
        assert("parametername"@.len() == 13);
        assert("parametername"@ != "sp"@);
        assert("ref"@.len() == 3);
        assert("ref"@ != "sp"@);
        assert("simplesect"@.len() == 10);
        assert("simplesect"@ != "sp"@);
        assert("emphasis"@.len() == 8);
        assert("emphasis"@ != "sp"@);
        assert("highlight"@.len() == 9);
        assert("highlight"@ != "sp"@);
        assert("programlisting"@.len() == 14);
        assert("programlisting"@ != "sp"@);
        assert("itemizedlist"@.len() == 12);
        assert("itemizedlist"@ != "sp"@);
        assert("listitem"@.len() == 8);
        assert("listitem"@ != "sp"@);
        assert("note"@.len() == 4);
        assert("note"@ != "sp"@);
        assert("xreftitle"@.len() == 9);
        assert("xreftitle"@ != "sp"@);
        assert("xrefdescription"@.len() == 15);
        assert("xrefdescription"@ != "sp"@);
        assert("xrefsect"@.len() == 8);
        assert("xrefsect"@ != "sp"@);
        assert("para"@ != "emphasis"@);
        assert("para"@ != "highlight"@);
        assert("para"@ != "programlisting"@);
        assert("para"@ != "itemizedlist"@);
        assert("para"@ != "listitem"@);
        assert("para"@[0] == 'p');
        assert("note"@[0] == 'n');
        assert("para"@ != "note"@);
        assert("para"@ != "xreftitle"@);
        assert("para"@ != "xrefdescription"@);
        assert("para"@ != "xrefsect"@);
        assert("computeroutput"@ != "emphasis"@);
        assert("computeroutput"@ != "highlight"@);
        assert("computeroutput"@[0] == 'c');
        assert("programlisting"@[0] == 'p');
        assert("computeroutput"@ != "programlisting"@);
        assert("computeroutput"@ != "itemizedlist"@);
        assert("computeroutput"@ != "listitem"@);
        assert("computeroutput"@ != "note"@);
        assert("computeroutput"@ != "xreftitle"@);
        assert("computeroutput"@ != "xrefdescription"@);
        assert("computeroutput"@ != "xrefsect"@);
        assert("codeline"@[0] == 'c');
        assert("emphasis"@[0] == 'e');
        assert("codeline"@ != "emphasis"@);
        assert("codeline"@ != "highlight"@);
        assert("codeline"@ != "programlisting"@);
        assert("codeline"@ != "itemizedlist"@);
        assert("codeline"@[0] == 'c');
        assert("listitem"@[0] == 'l');
        assert("codeline"@ != "listitem"@);
        assert("codeline"@ != "note"@);
        assert("codeline"@ != "xreftitle"@);
        assert("codeline"@ != "xrefdescription"@);
        assert("codeline"@[0] == 'c');
        assert("xrefsect"@[0] == 'x');
        assert("codeline"@ != "xrefsect"@);
        assert("parameternamelist"@ != "emphasis"@);
        assert("parameternamelist"@ != "highlight"@);
        assert("parameternamelist"@ != "programlisting"@);
        assert("parameternamelist"@ != "itemizedlist"@);
        assert("parameternamelist"@ != "listitem"@);
        assert("parameternamelist"@ != "note"@);
        assert("parameternamelist"@ != "xreftitle"@);
        assert("parameternamelist"@ != "xrefdescription"@);
        assert("parameternamelist"@ != "xrefsect"@);
        assert("parameteritem"@ != "emphasis"@);
        assert("parameteritem"@ != "highlight"@);
        assert("parameteritem"@ != "programlisting"@);
        assert("parameteritem"@ != "itemizedlist"@);
        assert("parameteritem"@ != "listitem"@);
        assert("parameteritem"@ != "note"@);
        assert("parameteritem"@ != "xreftitle"@);
        assert("parameteritem"@ != "xrefdescription"@);
        assert("parameteritem"@ != "xrefsect"@);
        assert("parameterlist"@ != "emphasis"@);
        assert("parameterlist"@ != "highlight"@);
        assert("parameterlist"@ != "programlisting"@);
        assert("parameterlist"@ != "itemizedlist"@);
        assert("parameterlist"@ != "listitem"@);
        assert("parameterlist"@ != "note"@);
        assert("parameterlist"@ != "xreftitle"@);
        assert("parameterlist"@ != "xrefdescription"@);
        assert("parameterlist"@ != "xrefsect"@);
        assert("parameterdescription"@ != "emphasis"@);
        assert("parameterdescription"@ != "highlight"@);
        assert("parameterdescription"@ != "programlisting"@);
        assert("parameterdescription"@ != "itemizedlist"@);
        assert("parameterdescription"@ != "listitem"@);
        assert("parameterdescription"@ != "note"@);
        assert("parameterdescription"@ != "xreftitle"@);
        assert("parameterdescription"@ != "xrefdescription"@);
        assert("parameterdescription"@ != "xrefsect"@);
        assert("parametername"@ != "emphasis"@);
        assert("parametername"@ != "highlight"@);
        assert("parametername"@ != "programlisting"@);
        assert("parametername"@ != "itemizedlist"@);
        assert("parametername"@ != "listitem"@);
        assert("parametername"@ != "note"@);
        assert("parametername"@ != "xreftitle"@);
        assert("parametername"@ != "xrefdescription"@);
        assert("parametername"@ != "xrefsect"@);
        assert("ref"@ != "emphasis"@);
        assert("ref"@ != "highlight"@);
        assert("ref"@ != "programlisting"@);
        assert("ref"@ != "itemizedlist"@);
        assert("ref"@ != "listitem"@);
        assert("ref"@ != "note"@);
        assert("ref"@ != "xreftitle"@);
        assert("ref"@ != "xrefdescription"@);
        assert("ref"@ != "xrefsect"@);
        assert("simplesect"@ != "emphasis"@);
        assert("simplesect"@ != "highlight"@);
        assert("simplesect"@ != "programlisting"@);
        assert("simplesect"@ != "itemizedlist"@);
        assert("simplesect"@ != "listitem"@);
        assert("simplesect"@ != "note"@);
        assert("simplesect"@ != "xreftitle"@);
        assert("simplesect"@ != "xrefdescription"@);
        assert("simplesect"@ != "xrefsect"@);
        assert("highlight"@ != "emphasis"@);
        assert("programlisting"@ != "emphasis"@);
        assert("programlisting"@ != "highlight"@);
        assert("itemizedlist"@ != "emphasis"@);
        assert("itemizedlist"@ != "highlight"@);
        assert("itemizedlist"@ != "programlisting"@);
        assert("listitem"@[0] == 'l');
        assert("emphasis"@[0] == 'e');
        assert("listitem"@ != "emphasis"@);
        assert("listitem"@ != "highlight"@);
        assert("listitem"@ != "programlisting"@);
        assert("listitem"@ != "itemizedlist"@);
        assert("note"@ != "emphasis"@);
        assert("note"@ != "highlight"@);
        assert("note"@ != "programlisting"@);
        assert("note"@ != "itemizedlist"@);
        assert("note"@ != "listitem"@);
        assert("xreftitle"@ != "emphasis"@);
        assert("xreftitle"@[0] == 'x');
        assert("highlight"@[0] == 'h');
        assert("xreftitle"@ != "highlight"@);
        assert("xreftitle"@ != "programlisting"@);
        assert("xreftitle"@ != "itemizedlist"@);
        assert("xreftitle"@ != "listitem"@);
        assert("xreftitle"@ != "note"@);
        assert("xrefdescription"@ != "emphasis"@);
        assert("xrefdescription"@ != "highlight"@);
        assert("xrefdescription"@ != "programlisting"@);
        assert("xrefdescription"@ != "itemizedlist"@);
        assert("xrefdescription"@ != "listitem"@);
        assert("xrefdescription"@ != "note"@);
        assert("xrefsect"@[0] == 'x');
        assert("emphasis"@[0] == 'e');
        assert("xrefsect"@ != "emphasis"@);
        assert("xrefsect"@ != "highlight"@);
        assert("xrefsect"@ != "programlisting"@);
        assert("xrefsect"@ != "itemizedlist"@);
        assert("xrefsect"@[0] == 'x');
        assert("listitem"@[0] == 'l');
        assert("xrefsect"@ != "listitem"@);
        assert("xrefsect"@ != "note"@);
        assert forall|st0: Seq<Seq<char>>|
            wf_rem(events@, pos as int, st0) && st0.len() >= 1 && st0.last() == name@
                implies exists|ext: Seq<Seq<char>>|
            wf_rem(events@, pos as int, st0.drop_last() + ext) by {
            let w = seq![name@];
            assert(st0.drop_last() + w =~= st0);
            assert(wf_rem(events@, pos as int, st0.drop_last() + w));
        }
    }
    let mut text = String::new();
    if str_eq(name, "para") {
        match collect_text(events, pos, name) {
            Ok((np, t)) => {
                text.append(t.as_str());
                proof {
                    assert(t@ == text_val(events@, pos as int, name@));
                    assert(text@ =~= t@);
                    assert(text@ =~= std_elem_val(events@, pos as int, name@, attrs@));
                }
                Ok((np, text))
            },
            Err(e) => Err(e),
        }
    } else if str_eq(name, "sp") {
        text.append(" ");
        proof {
            assert(text@ =~= std_elem_val(events@, pos as int, name@, attrs@));
        }
        Ok((pos, text))
    } else if str_eq(name, "emphasis") {
        match collect_text(events, pos, name) {
            Ok((np, t)) => {
                text.append("\\fB");
                text.append(t.as_str());
                text.append("\\fR");
                proof {
                    assert(text@ =~= std_elem_val(events@, pos as int, name@, attrs@));
                }
                Ok((np, text))
            },
            Err(e) => Err(e),
        }
    } else if str_eq(name, "highlight") {
        // TBH only "normal" has ever been seen here
        let h_type = get_attr(attrs, "class");
        match collect_text(events, pos, name) {
            Ok((np, t)) => {
                if !str_eq(h_type.as_str(), "normal") {
                    text.append("\\fB");
                }
                text.append(t.as_str());
                if !str_eq(h_type.as_str(), "normal") {
                    text.append("\\fR");
                }
                proof {
                    assert(text@ =~= std_elem_val(events@, pos as int, name@, attrs@));
                }
                Ok((np, text))
            },
            Err(e) => Err(e),
        }
    } else if str_eq(name, "programlisting") {
        match collect_text(events, pos, name) {
            Ok((np, t)) => {
                text.append("\n.nf\n");
                text.append(t.as_str());
                text.append("\n.fi\n");
                proof {
                    assert(text@ =~= std_elem_val(events@, pos as int, name@, attrs@));
                }
                Ok((np, text))
            },
            Err(e) => Err(e),
        }
    } else if str_eq(name, "itemizedlist") {
        match collect_text(events, pos, name) {
            Ok((np, t)) => {
                text.append("\n");
                text.append(t.as_str());
                text.append("\n");
                proof {
                    assert(text@ =~= std_elem_val(events@, pos as int, name@, attrs@));
                }
                Ok((np, text))
            },
            Err(e) => Err(e),
        }
    } else if str_eq(name, "listitem") {
        match collect_text(events, pos, name) {
            Ok((np, t)) => {
                text.append("\n* ");
                text.append(t.as_str());
                proof {
                    assert(text@ =~= std_elem_val(events@, pos as int, name@, attrs@));
                }
                Ok((np, text))
            },
            Err(e) => Err(e),
        }
    } else if str_eq(name, "note") {
        match collect_text(events, pos, name) {
            Ok((np, t)) => {
                text.append(t.as_str());
                text.append("\n");
                proof {
                    assert(text@ =~= std_elem_val(events@, pos as int, name@, attrs@));
                }
                Ok((np, text))
            },
            Err(e) => Err(e),
        }
    } else if str_eq(name, "computeroutput") || str_eq(name, "codeline") || str_eq(
        name,
        "parameternamelist",
    ) || str_eq(name, "parameteritem") || str_eq(name, "parameterlist") || str_eq(
        name,
        "parameterdescription",
    ) || str_eq(name, "parametername") || str_eq(name, "ref") || str_eq(name, "simplesect") {
        match collect_text(events, pos, name) {
            Ok((np, t)) => {
                text.append(t.as_str());
                proof {
                    assert(text@ =~= std_elem_val(events@, pos as int, name@, attrs@));
                }
                Ok((np, text))
            },
            Err(e) => Err(e),
        }
    } else if str_eq(name, "xreftitle") || str_eq(name, "xrefdescription") || str_eq(
        name,
        "xrefsect",
    ) {
        match collect_text(events, pos, name) {
            Ok((np, _t)) => {
                proof {
                    assert(text@ =~= std_elem_val(events@, pos as int, name@, attrs@));
                }
                Ok((np, text))
            },
            Err(e) => Err(e),
        }
    } else {
        proof {
            assert(text@ =~= std_elem_val(events@, pos as int, name@, attrs@));
        }
        Ok((pos, text))
    }
}


/// Where the mixed collector, which leaves at the first close event of
/// any name at its own level, ends; -1 when the stream runs out inside.
pub open spec fn any_end(events: Seq<Event>, pos: int) -> int
    decreases events.len() - pos,
    via any_end_dec
{
    if pos < 0 || pos >= events.len() {
        -1
    } else {
        match events[pos] {
            Event::Start { name, .. } => if name@ == "ref"@ {
                if text_end(events, pos + 1, name@) < 0 {
                    -1
                } else {
                    any_end(events, text_end(events, pos + 1, name@))
                }
            } else {
                if std_elem_end(events, pos + 1, name@) < 0 {
                    -1
                } else {
                    any_end(events, std_elem_end(events, pos + 1, name@))
                }
            },
            Event::End { .. } => pos + 1,
            Event::Text { .. } => any_end(events, pos + 1),
            Event::Other => any_end(events, pos + 1),
            Event::Eof => -1,
        }
    }
}

#[via_fn]
proof fn any_end_dec(events: Seq<Event>, pos: int) {
    if 0 <= pos < events.len() {
        match events[pos] {
            Event::Start { name, .. } => {
                lemma_scan_end_bounds(events, pos + 1, seq![name@]);
            },
            _ => {},
        }
    }
}

/// The text the mixed collector has gathered when it leaves: character
/// data and dispatched children appended in order, right-trimmed at the
/// first close.
pub open spec fn any_val_acc(events: Seq<Event>, pos: int, acc: Seq<char>) -> Seq<char>
    decreases events.len() - pos,
    via any_val_acc_dec
{
    if pos < 0 || pos >= events.len() {
        acc
    } else {
        match events[pos] {
            Event::Start { name, attrs } => if name@ == "ref"@ {
                if text_end(events, pos + 1, name@) < 0 {
                    acc
                } else {
                    any_val_acc(
                        events,
                        text_end(events, pos + 1, name@),
                        acc + text_val(events, pos + 1, name@),
                    )
                }
            } else {
                if std_elem_end(events, pos + 1, name@) < 0 {
                    acc
                } else {
                    any_val_acc(
                        events,
                        std_elem_end(events, pos + 1, name@),
                        acc + std_elem_val(events, pos + 1, name@, attrs@),
                    )
                }
            },
            Event::End { .. } => trim_end_spec(acc),
            Event::Text { text } => any_val_acc(events, pos + 1, acc + text@),
            Event::Other => any_val_acc(events, pos + 1, acc),
            Event::Eof => acc,
        }
    }
}

#[via_fn]
proof fn any_val_acc_dec(events: Seq<Event>, pos: int, acc: Seq<char>) {
    if 0 <= pos < events.len() {
        match events[pos] {
            Event::Start { name, .. } => {
                lemma_scan_end_bounds(events, pos + 1, seq![name@]);
            },
            _ => {},
        }
    }
}

/// The cross-reference target the mixed collector carries out: the
/// `refid` attribute of the last `ref` child seen, if any.
pub open spec fn any_ref(events: Seq<Event>, pos: int, cur: Option<Seq<char>>) -> Option<Seq<char>>
    decreases events.len() - pos,
    via any_ref_dec
{
    if pos < 0 || pos >= events.len() {
        cur
    } else {
        match events[pos] {
            Event::Start { name, attrs } => if name@ == "ref"@ {
                if text_end(events, pos + 1, name@) < 0 {
                    cur
                } else {
                    any_ref(
                        events,
                        text_end(events, pos + 1, name@),
                        Some(attr_value(attrs@, "refid"@)),
                    )
                }
            } else {
                if std_elem_end(events, pos + 1, name@) < 0 {
                    cur
                } else {
                    any_ref(events, std_elem_end(events, pos + 1, name@), cur)
                }
            },
            Event::End { .. } => cur,
            Event::Text { .. } => any_ref(events, pos + 1, cur),
            Event::Other => any_ref(events, pos + 1, cur),
            Event::Eof => cur,
        }
    }
}

#[via_fn]
proof fn any_ref_dec(events: Seq<Event>, pos: int, cur: Option<Seq<char>>) {
    if 0 <= pos < events.len() {
        match events[pos] {
            Event::Start { name, .. } => {
                lemma_scan_end_bounds(events, pos + 1, seq![name@]);
            },
            _ => {},
        }
    }
}

/// The view of an optional identifier.
pub open spec fn opt_view(o: Option<String>) -> Option<Seq<char>> {
    match o {
        Some(s) => Some(s@),
        None => None,
    }
}

/// Collects text as the main routine does, but returns at the first close
/// event whatever its tag, and captures the target of any cross-reference
/// seen along the way.
pub fn collect_text_and_refid(events: &Vec<Event>, pos: usize) -> (r: Result<
    (usize, String, Option<String>),
    ParseError,
>)
    requires
        pos <= events@.len(),
    ensures
        r matches Ok(p) ==> pos < p.0 <= events@.len() && is_trimmed_end(p.1@),
        r matches Ok(p) ==> events@[p.0 - 1] is End,
        forall|st0: Seq<Seq<char>>|
            #![trigger wf_rem(events@, pos as int, st0)]
            wf_rem(events@, pos as int, st0) && st0.len() >= 1 ==> (r matches Ok(p) && exists|
                ext: Seq<Seq<char>>,
            | wf_rem(events@, p.0 as int, st0.drop_last() + ext)),
        r is Ok <==> any_end(events@, pos as int) >= 0,
        r matches Ok(p) ==> p.0 == any_end(events@, pos as int) && p.1@ == any_val_acc(
            events@,
            pos as int,
            Seq::empty(),
        ) && opt_view(p.2) == any_ref(events@, pos as int, None),
    decreases events@.len() - pos, 0int,
{
    let mut text = String::new();
    let mut refid: Option<String> = None;
    let mut i = pos;
    proof {
        lemma_tracks_init(events@, pos as int, Seq::empty(), false);
    }
    while i < events.len()
        invariant
            pos <= i <= events@.len(),
            tracks(events@, pos as int, i as int, Seq::empty(), false),
            any_end(events@, pos as int) == any_end(events@, i as int),
            any_val_acc(events@, pos as int, Seq::empty()) == any_val_acc(
                events@,
                i as int,
                text@,
            ),
            any_ref(events@, pos as int, None) == any_ref(events@, i as int, opt_view(refid)),
        decreases events@.len() - i,
    {
        let ghost evs = events@;
        match &events[i] {
            Event::Start { name, attrs } => {
                let ghost nm = name@;
                if str_eq(name.as_str(), "ref") {
                    refid = Some(get_attr(attrs, "refid"));
                    match collect_text(events, i + 1, name.as_str()) {
                        Ok((np, t)) => {
                            proof {
                                assert(consumed_ok(evs, (i + 1) as int, np as int, nm));
                                lemma_tracks_start_consumed(
                                    evs,
                                    pos as int,
                                    i as int,
                                    np as int,
                                    Seq::empty(),
                                    false,
                                    nm,
                                );
                                assert(text_end(evs, (i + 1) as int, nm) == np);
                                assert((text@ + t@) =~= text@ + t@);
                            }
                            text.append(t.as_str());
                            i = np;
                        },
                        Err(e) => {
                            proof {
                                lemma_tracks_inner_open(
                                    evs,
                                    pos as int,
                                    i as int,
                                    Seq::empty(),
                                    false,
                                    nm,
                                );
                                assert forall|st0: Seq<Seq<char>>|
                                    #![trigger wf_rem(evs, pos as int, st0)]
                                    !(wf_rem(evs, pos as int, st0) && st0.len() >= 1) by {
                                    if wf_rem(evs, pos as int, st0) && st0.len() >= 1 {
                                        let st1 = choose|st1: Seq<Seq<char>>|
                                            #![trigger wf_rem(evs, (i + 1) as int, st1)]
                                            wf_rem(evs, (i + 1) as int, st1) && st1.len() >= 1
                                                && st1.last() == nm;
                                        assert(wf_rem(evs, (i + 1) as int, st1));
                                    }
                                }
                            }
                            return Err(e);
                        },
                    }
                } else {
                    match parse_standard_elements(events, i + 1, name.as_str(), attrs) {
                        Ok((np, t)) => {
                            proof {
                                assert(consumed_ok(evs, (i + 1) as int, np as int, nm));
                                lemma_tracks_start_consumed(
                                    evs,
                                    pos as int,
                                    i as int,
                                    np as int,
                                    Seq::empty(),
                                    false,
                                    nm,
                                );
                                assert(std_elem_end(evs, (i + 1) as int, nm) == np);
                                assert((text@ + t@) =~= text@ + t@);
                            }
                            text.append(t.as_str());
                            i = np;
                        },
                        Err(e) => {
                            proof {
                                lemma_tracks_inner_open(
                                    evs,
                                    pos as int,
                                    i as int,
                                    Seq::empty(),
                                    false,
                                    nm,
                                );
                                assert forall|st0: Seq<Seq<char>>|
                                    #![trigger wf_rem(evs, pos as int, st0)]
                                    !(wf_rem(evs, pos as int, st0) && st0.len() >= 1) by {
                                    if wf_rem(evs, pos as int, st0) && st0.len() >= 1 {
                                        let st1 = choose|st1: Seq<Seq<char>>|
                                            #![trigger wf_rem(evs, (i + 1) as int, st1)]
                                            wf_rem(evs, (i + 1) as int, st1) && st1.len() >= 1
                                                && st1.last() == nm;
                                        assert(wf_rem(evs, (i + 1) as int, st1));
                                    }
                                }
                            }
                            return Err(e);
                        },
                    }
                }
            },
            Event::Text { text: t } => {
                proof {
                    lemma_tracks_skip(evs, pos as int, i as int, Seq::empty(), false);
                }
                text.append(t.as_str());
                i = i + 1;
            },
            Event::End { .. } => {
                let trimmed = trim_end(text.as_str());
                proof {
                    lemma_trim_end_trimmed(text@);
                    lemma_tracks_end_returns(evs, pos as int, i as int, Seq::empty(), false);
                }
                return Ok((i + 1, trimmed, refid));
            },
            Event::Eof => {
                proof {
                    lemma_tracks_no_eof(evs, pos as int, i as int, Seq::empty(), false);
                }
                return Err(ParseError::Truncated);
            },
            Event::Other => {
                proof {
                    lemma_tracks_skip(evs, pos as int, i as int, Seq::empty(), false);
                }
                i = i + 1;
            },
        }
    }
    proof {
        lemma_tracks_no_eof(events@, pos as int, i as int, Seq::empty(), false);
    }
    Err(ParseError::Truncated)
}


pub proof fn lemma_any_end_bounds(events: Seq<Event>, pos: int)
    ensures
        any_end(events, pos) == -1 || pos < any_end(events, pos) <= events.len(),
    decreases events.len() - pos,
{
    if 0 <= pos < events.len() {
        match events[pos] {
            Event::Start { name, .. } => {
                lemma_scan_end_bounds(events, pos + 1, seq![name@]);
                if name@ == "ref"@ {
                    if text_end(events, pos + 1, name@) >= 0 {
                        lemma_any_end_bounds(events, text_end(events, pos + 1, name@));
                    }
                } else {
                    if std_elem_end(events, pos + 1, name@) >= 0 {
                        lemma_any_end_bounds(events, std_elem_end(events, pos + 1, name@));
                    }
                }
            },
            Event::Text { .. } => {
                lemma_any_end_bounds(events, pos + 1);
            },
            Event::Other => {
                lemma_any_end_bounds(events, pos + 1);
            },
            _ => {},
        }
    }
}

/// One name/description item: the trimmed texts of its
/// `parameternamelist` and `parameterdescription` children (the last of
/// each winning, empty when absent), read up to the close of `stop`; the
/// shape shared by return-value entries and parameter items.
pub open spec fn pair_scan(
    events: Seq<Event>,
    pos: int,
    stop: Seq<char>,
    n: Seq<char>,
    d: Seq<char>,
) -> Option<(int, Seq<char>, Seq<char>)>
    decreases events.len() - pos,
    via pair_scan_dec
{
    if pos < 0 || pos >= events.len() {
        None
    } else {
        match events[pos] {
            Event::Start { name, .. } => if text_end(events, pos + 1, name@) < 0 {
                None
            } else {
                if name@ == "parameternamelist"@ {
                    pair_scan(
                        events,
                        text_end(events, pos + 1, name@),
                        stop,
                        trim_spec(text_val(events, pos + 1, name@)),
                        d,
                    )
                } else if name@ == "parameterdescription"@ {
                    pair_scan(
                        events,
                        text_end(events, pos + 1, name@),
                        stop,
                        n,
                        trim_spec(text_val(events, pos + 1, name@)),
                    )
                } else {
                    pair_scan(events, text_end(events, pos + 1, name@), stop, n, d)
                }
            },
            Event::End { name } => if name@ == stop {
                Some((pos + 1, n, d))
            } else {
                pair_scan(events, pos + 1, stop, n, d)
            },
            Event::Text { .. } => pair_scan(events, pos + 1, stop, n, d),
            Event::Other => pair_scan(events, pos + 1, stop, n, d),
            Event::Eof => None,
        }
    }
}

#[via_fn]
proof fn pair_scan_dec(events: Seq<Event>, pos: int, stop: Seq<char>, n: Seq<char>, d: Seq<char>) {
    if 0 <= pos < events.len() {
        match events[pos] {
            Event::Start { name, .. } => {
                lemma_scan_end_bounds(events, pos + 1, seq![name@]);
            },
            _ => {},
        }
    }
}

/// The member fields the structure-member reader gathers: name, type and
/// args suffix verbatim, the descriptions trimmed on both ends, each from
/// the last child of its tag; read up to the first close event.
pub open spec fn member_scan(
    events: Seq<Event>,
    pos: int,
    n: Seq<char>,
    t: Seq<char>,
    a: Seq<char>,
    d: Seq<char>,
    b: Seq<char>,
) -> Option<(int, Seq<char>, Seq<char>, Seq<char>, Seq<char>, Seq<char>)>
    decreases events.len() - pos,
    via member_scan_dec
{
    if pos < 0 || pos >= events.len() {
        None
    } else {
        match events[pos] {
            Event::Start { name, .. } => if text_end(events, pos + 1, name@) < 0 {
                None
            } else {
                let e = text_end(events, pos + 1, name@);
                let v = text_val(events, pos + 1, name@);
                if name@ == "name"@ {
                    member_scan(events, e, v, t, a, d, b)
                } else if name@ == "type"@ {
                    member_scan(events, e, n, v, a, d, b)
                } else if name@ == "argsstring"@ {
                    member_scan(events, e, n, t, v, d, b)
                } else if name@ == "detaileddescription"@ {
                    member_scan(events, e, n, t, a, trim_spec(v), b)
                } else if name@ == "briefdescription"@ {
                    member_scan(events, e, n, t, a, d, trim_spec(v))
                } else {
                    member_scan(events, e, n, t, a, d, b)
                }
            },
            Event::End { .. } => Some((pos + 1, n, t, a, d, b)),
            Event::Text { .. } => member_scan(events, pos + 1, n, t, a, d, b),
            Event::Other => member_scan(events, pos + 1, n, t, a, d, b),
            Event::Eof => None,
        }
    }
}

#[via_fn]
proof fn member_scan_dec(
    events: Seq<Event>,
    pos: int,
    n: Seq<char>,
    t: Seq<char>,
    a: Seq<char>,
    d: Seq<char>,
    b: Seq<char>,
) {
    if 0 <= pos < events.len() {
        match events[pos] {
            Event::Start { name, .. } => {
                lemma_scan_end_bounds(events, pos + 1, seq![name@]);
            },
            _ => {},
        }
    }
}

pub proof fn lemma_member_scan_bounds(
    events: Seq<Event>,
    pos: int,
    n: Seq<char>,
    t: Seq<char>,
    a: Seq<char>,
    d: Seq<char>,
    b: Seq<char>,
)
    ensures
        member_scan(events, pos, n, t, a, d, b) matches Some(p) ==> pos < p.0 <= events.len(),
    decreases events.len() - pos,
{
    if 0 <= pos < events.len() {
        match events[pos] {
            Event::Start { name, .. } => {
                lemma_scan_end_bounds(events, pos + 1, seq![name@]);
                let e = text_end(events, pos + 1, name@);
                let v = text_val(events, pos + 1, name@);
                if e >= 0 {
                    lemma_member_scan_bounds(events, e, v, t, a, d, b);
                    lemma_member_scan_bounds(events, e, n, v, a, d, b);
                    lemma_member_scan_bounds(events, e, n, t, v, d, b);
                    lemma_member_scan_bounds(events, e, n, t, a, trim_spec(v), b);
                    lemma_member_scan_bounds(events, e, n, t, a, d, trim_spec(v));
                    lemma_member_scan_bounds(events, e, n, t, a, d, b);
                }
            },
            Event::Text { .. } => {
                lemma_member_scan_bounds(events, pos + 1, n, t, a, d, b);
            },
            Event::Other => {
                lemma_member_scan_bounds(events, pos + 1, n, t, a, d, b);
            },
            _ => {},
        }
    }
}

/// The field views of a member list.
pub open spec fn member_views(ms: Seq<FnParam>) -> Seq<
    (Seq<char>, Seq<char>, Seq<char>, Seq<char>, Seq<char>),
> {
    ms.map_values(
        |m: FnParam| (m.par_name@, m.par_type@, m.par_args@, m.par_desc@, m.par_brief@),
    )
}

/// What the enum collector gathers: its name and descriptions from the
/// recognized children, one member per `enumvalue` child in source order,
/// read up to the first close event at its own level (or the end of the
/// stream, which yields what was gathered so far).
pub open spec fn enum_scan(
    events: Seq<Event>,
    pos: int,
    nm: Seq<char>,
    brief: Seq<char>,
    desc: Seq<char>,
    ms: Seq<(Seq<char>, Seq<char>, Seq<char>, Seq<char>, Seq<char>)>,
) -> Option<
    (int, Seq<char>, Seq<char>, Seq<char>, Seq<(Seq<char>, Seq<char>, Seq<char>, Seq<char>, Seq<char>)>),
>
    decreases events.len() - pos,
    via enum_scan_dec
{
    if pos < 0 || pos >= events.len() {
        None
    } else {
        match events[pos] {
            Event::Start { name, .. } => if name@ == "enumvalue"@ {
                match member_scan(
                    events,
                    pos + 1,
                    Seq::empty(),
                    Seq::empty(),
                    Seq::empty(),
                    Seq::empty(),
                    Seq::empty(),
                ) {
                    Some(m) => enum_scan(
                        events,
                        m.0,
                        nm,
                        brief,
                        desc,
                        ms.push((m.1, m.2, m.3, m.4, m.5)),
                    ),
                    None => None,
                }
            } else if text_end(events, pos + 1, name@) < 0 {
                None
            } else {
                let e = text_end(events, pos + 1, name@);
                let v = text_val(events, pos + 1, name@);
                if name@ == "name"@ {
                    enum_scan(events, e, v, brief, desc, ms)
                } else if name@ == "briefdescription"@ {
                    enum_scan(events, e, nm, v, desc, ms)
                } else if name@ == "detaileddescription"@ {
                    enum_scan(events, e, nm, brief, v, ms)
                } else {
                    enum_scan(events, e, nm, brief, desc, ms)
                }
            },
            Event::End { .. } => Some((pos + 1, nm, brief, desc, ms)),
            Event::Text { .. } => enum_scan(events, pos + 1, nm, brief, desc, ms),
            Event::Other => enum_scan(events, pos + 1, nm, brief, desc, ms),
            Event::Eof => Some((pos, nm, brief, desc, ms)),
        }
    }
}

#[via_fn]
proof fn enum_scan_dec(
    events: Seq<Event>,
    pos: int,
    nm: Seq<char>,
    brief: Seq<char>,
    desc: Seq<char>,
    ms: Seq<(Seq<char>, Seq<char>, Seq<char>, Seq<char>, Seq<char>)>,
) {
    if 0 <= pos < events.len() {
        match events[pos] {
            Event::Start { name, .. } => {
                lemma_scan_end_bounds(events, pos + 1, seq![name@]);
                lemma_member_scan_bounds(
                    events,
                    pos + 1,
                    Seq::empty(),
                    Seq::empty(),
                    Seq::empty(),
                    Seq::empty(),
                    Seq::empty(),
                );
            },
            _ => {},
        }
    }
}

/// What the define collector gathers: the four fields from the recognized
/// children, read up to the member definition's close (or the end of the
/// stream); an unrecognized child is stepped over without being consumed.
pub open spec fn define_scan(
    events: Seq<Event>,
    pos: int,
    nm: Seq<char>,
    init: Seq<char>,
    brief: Seq<char>,
    desc: Seq<char>,
) -> Option<(int, Seq<char>, Seq<char>, Seq<char>, Seq<char>)>
    decreases events.len() - pos,
    via define_scan_dec
{
    if pos < 0 || pos >= events.len() {
        None
    } else {
        match events[pos] {
            Event::Start { name, .. } => if name@ == "name"@ || name@ == "initializer"@ || name@
                == "briefdescription"@ || name@ == "detaileddescription"@ {
                if text_end(events, pos + 1, name@) < 0 {
                    None
                } else {
                    let e = text_end(events, pos + 1, name@);
                    let v = text_val(events, pos + 1, name@);
                    if name@ == "name"@ {
                        define_scan(events, e, v, init, brief, desc)
                    } else if name@ == "initializer"@ {
                        define_scan(events, e, nm, v, brief, desc)
                    } else if name@ == "briefdescription"@ {
                        define_scan(events, e, nm, init, v, desc)
                    } else {
                        define_scan(events, e, nm, init, brief, v)
                    }
                }
            } else {
                define_scan(events, pos + 1, nm, init, brief, desc)
            },
            Event::End { name } => if name@ == "memberdef"@ {
                Some((pos + 1, nm, init, brief, desc))
            } else {
                define_scan(events, pos + 1, nm, init, brief, desc)
            },
            Event::Text { .. } => define_scan(events, pos + 1, nm, init, brief, desc),
            Event::Other => define_scan(events, pos + 1, nm, init, brief, desc),
            Event::Eof => Some((pos, nm, init, brief, desc)),
        }
    }
}

#[via_fn]
proof fn define_scan_dec(
    events: Seq<Event>,
    pos: int,
    nm: Seq<char>,
    init: Seq<char>,
    brief: Seq<char>,
    desc: Seq<char>,
) {
    if 0 <= pos < events.len() {
        match events[pos] {
            Event::Start { name, .. } => {
                lemma_scan_end_bounds(events, pos + 1, seq![name@]);
            },
            _ => {},
        }
    }
}

/// What the function-parameter collector gathers: the declared type and
/// the captured cross-reference from the `type` child, the name from the
/// `declname` child, read up to the first close event at its own level.
pub open spec fn fp_scan(
    events: Seq<Event>,
    pos: int,
    n: Seq<char>,
    t: Seq<char>,
    rid: Option<Seq<char>>,
) -> Option<(int, Seq<char>, Seq<char>, Option<Seq<char>>)>
    decreases events.len() - pos,
    via fp_scan_dec
{
    if pos < 0 || pos >= events.len() {
        None
    } else {
        match events[pos] {
            Event::Start { name, .. } => if any_end(events, pos + 1) < 0 {
                None
            } else {
                let e = any_end(events, pos + 1);
                let v = any_val_acc(events, pos + 1, Seq::empty());
                let r2 = any_ref(events, pos + 1, None);
                if name@ == "type"@ {
                    fp_scan(events, e, n, v, r2)
                } else if name@ == "declname"@ {
                    fp_scan(events, e, v, t, rid)
                } else {
                    fp_scan(events, e, n, t, rid)
                }
            },
            Event::End { .. } => Some((pos + 1, n, t, rid)),
            Event::Text { .. } => fp_scan(events, pos + 1, n, t, rid),
            Event::Other => fp_scan(events, pos + 1, n, t, rid),
            Event::Eof => None,
        }
    }
}

#[via_fn]
proof fn fp_scan_dec(
    events: Seq<Event>,
    pos: int,
    n: Seq<char>,
    t: Seq<char>,
    rid: Option<Seq<char>>,
) {
    if 0 <= pos < events.len() {
        lemma_any_end_bounds(events, pos + 1);
    }
}

/// Collect a single return-value entry: its symbolic name and description.
pub fn collect_retval(events: &Vec<Event>, pos: usize, stop: &str) -> (r: Result<
    (usize, ReturnVal),
    ParseError,
>)
    requires
        pos <= events@.len(),
    ensures
        r matches Ok(p) ==> pos < p.0 <= events@.len(),
        collects_ok(events@, pos as int, stop@, r),
        r is Ok <==> pair_scan(events@, pos as int, stop@, Seq::empty(), Seq::empty()) is Some,
        r matches Ok(p) ==> pair_scan(events@, pos as int, stop@, Seq::empty(), Seq::empty())
            == Some((p.0 as int, p.1.ret_name@, p.1.ret_desc@)),
    decreases events@.len() - pos, 0int,
{
    let mut ret_name = String::new();
    let mut ret_desc = String::new();
    let mut i = pos;
    proof {
        lemma_tracks_init(events@, pos as int, stop@, true);
    }
    while i < events.len()
        invariant
            pos <= i <= events@.len(),
            tracks(events@, pos as int, i as int, stop@, true),
            pair_scan(events@, pos as int, stop@, Seq::empty(), Seq::empty()) == pair_scan(
                events@,
                i as int,
                stop@,
                ret_name@,
                ret_desc@,
            ),
        decreases events@.len() - i,
    {
        match &events[i] {
            Event::Start { name, .. } => {
                let ghost nm = name@;
                match collect_text(events, i + 1, name.as_str()) {
                    Ok((np, t)) => {
                        proof {
                            assert(consumed_ok(events@, (i + 1) as int, np as int, nm));
                            lemma_tracks_start_consumed(
                                events@,
                                pos as int,
                                i as int,
                                np as int,
                                stop@,
                                true,
                                nm,
                            );
                        }
                        if str_eq(name.as_str(), "parameternamelist") {
                            ret_name = trim(t.as_str());
                        } else if str_eq(name.as_str(), "parameterdescription") {
                            ret_desc = trim(t.as_str());
                        }
                        i = np;
                    },
                    Err(e) => {
                        proof {
                            lemma_tracks_inner_open(
                                events@,
                                pos as int,
                                i as int,
                                stop@,
                                true,
                                nm,
                            );
                        }
                        return Err(e);
                    },
                }
            },
            Event::Text { .. } => {
                proof {
                    lemma_tracks_skip(events@, pos as int, i as int, stop@, true);
                }
                i = i + 1;
            },
            Event::End { name } => {
                if str_eq(name.as_str(), stop) {
                    proof {
                        lemma_tracks_end_returns(events@, pos as int, i as int, stop@, true);
                    }
                    return Ok((i + 1, ReturnVal { ret_name, ret_desc }));
                }
                proof {
                    lemma_tracks_end_skipped(events@, pos as int, i as int, stop@, name@);
                }
                i = i + 1;
            },
            Event::Eof => {
                proof {
                    lemma_tracks_no_eof(events@, pos as int, i as int, stop@, true);
                }
                return Err(ParseError::Truncated);
            },
            Event::Other => {
                proof {
                    lemma_tracks_skip(events@, pos as int, i as int, stop@, true);
                }
                i = i + 1;
            },
        }
    }
    proof {
        lemma_tracks_no_eof(events@, pos as int, i as int, stop@, true);
    }
    Err(ParseError::Truncated)
}


pub proof fn lemma_pair_scan_bounds(
    events: Seq<Event>,
    pos: int,
    stop: Seq<char>,
    n: Seq<char>,
    d: Seq<char>,
)
    ensures
        pair_scan(events, pos, stop, n, d) matches Some(p) ==> pos < p.0 <= events.len(),
    decreases events.len() - pos,
{
    if 0 <= pos < events.len() {
        match events[pos] {
            Event::Start { name, .. } => {
                lemma_scan_end_bounds(events, pos + 1, seq![name@]);
                let e = text_end(events, pos + 1, name@);
                let v = trim_spec(text_val(events, pos + 1, name@));
                if e >= 0 {
                    lemma_pair_scan_bounds(events, e, stop, v, d);
                    lemma_pair_scan_bounds(events, e, stop, n, v);
                    lemma_pair_scan_bounds(events, e, stop, n, d);
                }
            },
            Event::End { name } => {
                if name@ != stop {
                    lemma_pair_scan_bounds(events, pos + 1, stop, n, d);
                }
            },
            Event::Text { .. } => {
                lemma_pair_scan_bounds(events, pos + 1, stop, n, d);
            },
            Event::Other => {
                lemma_pair_scan_bounds(events, pos + 1, stop, n, d);
            },
            Event::Eof => {},
        }
    }
}

/// The entries a retval parameter list yields: one name/description pair
/// per `parameteritem` child, in source order, up to the close of `stop`.
pub open spec fn retvals_scan(
    events: Seq<Event>,
    pos: int,
    stop: Seq<char>,
    rvs: Seq<(Seq<char>, Seq<char>)>,
) -> Option<(int, Seq<(Seq<char>, Seq<char>)>)>
    decreases events.len() - pos,
    via retvals_scan_dec
{
    if pos < 0 || pos >= events.len() {
        None
    } else {
        match events[pos] {
            Event::Start { name, .. } => if name@ == "parameteritem"@ {
                match pair_scan(events, pos + 1, name@, Seq::empty(), Seq::empty()) {
                    Some(p) => retvals_scan(events, p.0, stop, rvs.push((p.1, p.2))),
                    None => None,
                }
            } else {
                if text_end(events, pos + 1, name@) < 0 {
                    None
                } else {
                    retvals_scan(events, text_end(events, pos + 1, name@), stop, rvs)
                }
            },
            Event::End { name } => if name@ == stop {
                Some((pos + 1, rvs))
            } else {
                retvals_scan(events, pos + 1, stop, rvs)
            },
            Event::Text { .. } => retvals_scan(events, pos + 1, stop, rvs),
            Event::Other => retvals_scan(events, pos + 1, stop, rvs),
            Event::Eof => None,
        }
    }
}

#[via_fn]
proof fn retvals_scan_dec(
    events: Seq<Event>,
    pos: int,
    stop: Seq<char>,
    rvs: Seq<(Seq<char>, Seq<char>)>,
) {
    if 0 <= pos < events.len() {
        match events[pos] {
            Event::Start { name, .. } => {
                lemma_scan_end_bounds(events, pos + 1, seq![name@]);
                lemma_pair_scan_bounds(events, pos + 1, name@, Seq::empty(), Seq::empty());
            },
            _ => {},
        }
    }
}

/// The name and description views of a return-value list.
pub open spec fn retval_views(rvs: Seq<ReturnVal>) -> Seq<(Seq<char>, Seq<char>)> {
    rvs.map_values(|rv: ReturnVal| (rv.ret_name@, rv.ret_desc@))
}

/// Collect all return-value entries of a retval parameter list, in source
/// order.
pub fn collect_retvals(events: &Vec<Event>, pos: usize, stop: &str) -> (r: Result<
    (usize, Vec<ReturnVal>),
    ParseError,
>)
    requires
        pos <= events@.len(),
    ensures
        r matches Ok(p) ==> pos < p.0 <= events@.len(),
        collects_ok(events@, pos as int, stop@, r),
        r is Ok <==> retvals_scan(events@, pos as int, stop@, Seq::empty()) is Some,
        r matches Ok(p) ==> retvals_scan(events@, pos as int, stop@, Seq::empty()) == Some(
            (p.0 as int, retval_views(p.1@)),
        ),
    decreases events@.len() - pos, 0int,
{
    let mut rvs = Vec::<ReturnVal>::new();
    let mut i = pos;
    proof {
        lemma_tracks_init(events@, pos as int, stop@, true);
        assert(retval_views(rvs@) =~= Seq::<(Seq<char>, Seq<char>)>::empty());
    }
    while i < events.len()
        invariant
            pos <= i <= events@.len(),
            tracks(events@, pos as int, i as int, stop@, true),
            retvals_scan(events@, pos as int, stop@, Seq::empty()) == retvals_scan(
                events@,
                i as int,
                stop@,
                retval_views(rvs@),
            ),
        decreases events@.len() - i,
    {
        match &events[i] {
            Event::Start { name, .. } => {
                let ghost nm = name@;
                if str_eq(name.as_str(), "parameteritem") {
                    match collect_retval(events, i + 1, name.as_str()) {
                        Ok((np, rv)) => {
                            proof {
                                assert(consumed_ok(events@, (i + 1) as int, np as int, nm));
                                lemma_tracks_start_consumed(
                                    events@,
                                    pos as int,
                                    i as int,
                                    np as int,
                                    stop@,
                                    true,
                                    nm,
                                );
                                assert(retval_views(rvs@.push(rv)) =~= retval_views(rvs@).push(
                                    (rv.ret_name@, rv.ret_desc@),
                                ));
                            }
                            rvs.push(rv);
                            i = np;
                        },
                        Err(e) => {
                            proof {
                                lemma_tracks_inner_open(
                                    events@,
                                    pos as int,
                                    i as int,
                                    stop@,
                                    true,
                                    nm,
                                );
                            }
                            return Err(e);
                        },
                    }
                } else {
                    match collect_text(events, i + 1, name.as_str()) {
                        Ok((np, _t)) => {
                            proof {
                                assert(consumed_ok(events@, (i + 1) as int, np as int, nm));
                                lemma_tracks_start_consumed(
                                    events@,
                                    pos as int,
                                    i as int,
                                    np as int,
                                    stop@,
                                    true,
                                    nm,
                                );
                            }
                            i = np;
                        },
                        Err(e) => {
                            proof {
                                lemma_tracks_inner_open(
                                    events@,
                                    pos as int,
                                    i as int,
                                    stop@,
                                    true,
                                    nm,
                                );
                            }
                            return Err(e);
                        },
                    }
                }
            },
            Event::Text { .. } => {
                proof {
                    lemma_tracks_skip(events@, pos as int, i as int, stop@, true);
                }
                i = i + 1;
            },
            Event::End { name } => {
                if str_eq(name.as_str(), stop) {
                    proof {
                        lemma_tracks_end_returns(events@, pos as int, i as int, stop@, true);
                    }
                    return Ok((i + 1, rvs));
                }
                proof {
                    lemma_tracks_end_skipped(events@, pos as int, i as int, stop@, name@);
                }
                i = i + 1;
            },
            Event::Eof => {
                proof {
                    lemma_tracks_no_eof(events@, pos as int, i as int, stop@, true);
                }
                return Err(ParseError::Truncated);
            },
            Event::Other => {
                proof {
                    lemma_tracks_skip(events@, pos as int, i as int, stop@, true);
                }
                i = i + 1;
            },
        }
    }
    proof {
        lemma_tracks_no_eof(events@, pos as int, i as int, stop@, true);
    }
    Err(ParseError::Truncated)
}

/// Collect one param-list item: the parameter name and its description.
pub fn collect_parameter_item(events: &Vec<Event>, pos: usize, stop: &str) -> (r: Result<
    (usize, String, String),
    ParseError,
>)
    requires
        pos <= events@.len(),
    ensures
        r matches Ok(p) ==> pos < p.0 <= events@.len(),
        forall|st0: Seq<Seq<char>>|
            #![trigger wf_rem(events@, pos as int, st0)]
            wf_rem(events@, pos as int, st0) && st0.len() >= 1 && st0.last() == stop@ ==> (
            r matches Ok(p) && exists|ext: Seq<Seq<char>>|
                wf_rem(events@, p.0 as int, st0.drop_last() + ext)),
        r is Ok <==> pair_scan(events@, pos as int, stop@, Seq::empty(), Seq::empty()) is Some,
        r matches Ok(p) ==> pair_scan(events@, pos as int, stop@, Seq::empty(), Seq::empty())
            == Some((p.0 as int, p.1@, p.2@)),
    decreases events@.len() - pos, 0int,
{
    let mut par_name = String::new();
    let mut par_desc = String::new();
    let mut i = pos;
    proof {
        lemma_tracks_init(events@, pos as int, stop@, true);
    }
    while i < events.len()
        invariant
            pos <= i <= events@.len(),
            tracks(events@, pos as int, i as int, stop@, true),
            pair_scan(events@, pos as int, stop@, Seq::empty(), Seq::empty()) == pair_scan(
                events@,
                i as int,
                stop@,
                par_name@,
                par_desc@,
            ),
        decreases events@.len() - i,
    {
        match &events[i] {
            Event::Start { name, .. } => {
                let ghost nm = name@;
                match collect_text(events, i + 1, name.as_str()) {
                    Ok((np, t)) => {
                        proof {
                            assert(consumed_ok(events@, (i + 1) as int, np as int, nm));
                            lemma_tracks_start_consumed(
                                events@,
                                pos as int,
                                i as int,
                                np as int,
                                stop@,
                                true,
                                nm,
                            );
                        }
                        if str_eq(name.as_str(), "parameternamelist") {
                            par_name = trim(t.as_str());
                        } else if str_eq(name.as_str(), "parameterdescription") {
                            par_desc = trim(t.as_str());
                        }
                        i = np;
                    },
                    Err(e) => {
                        proof {
                            lemma_tracks_inner_open(
                                events@,
                                pos as int,
                                i as int,
                                stop@,
                                true,
                                nm,
                            );
                        }
                        return Err(e);
                    },
                }
            },
            Event::Text { .. } => {
                proof {
                    lemma_tracks_skip(events@, pos as int, i as int, stop@, true);
                }
                i = i + 1;
            },
            Event::End { name } => {
                if str_eq(name.as_str(), stop) {
                    proof {
                        lemma_tracks_end_returns(events@, pos as int, i as int, stop@, true);
                    }
                    return Ok((i + 1, par_name, par_desc));
                }
                proof {
                    lemma_tracks_end_skipped(events@, pos as int, i as int, stop@, name@);
                }
                i = i + 1;
            },
            Event::Eof => {
                proof {
                    lemma_tracks_no_eof(events@, pos as int, i as int, stop@, true);
                }
                return Err(ParseError::Truncated);
            },
            Event::Other => {
                proof {
                    lemma_tracks_skip(events@, pos as int, i as int, stop@, true);
                }
                i = i + 1;
            },
        }
    }
    proof {
        lemma_tracks_no_eof(events@, pos as int, i as int, stop@, true);
    }
    Err(ParseError::Truncated)
}

/// Everything of two parameter lists is the same but the descriptions.
pub open spec fn params_frame(a: Seq<FnParam>, b: Seq<FnParam>) -> bool {
    &&& a.len() == b.len()
    &&& forall|j: int|
        0 <= j < a.len() ==> {
            &&& (#[trigger] b[j]).par_name == a[j].par_name
            &&& b[j].par_type == a[j].par_type
            &&& b[j].par_refid == a[j].par_refid
            &&& b[j].par_args == a[j].par_args
            &&& b[j].par_brief == a[j].par_brief
        }
}

/// Stores a collected description on every parameter of that name; all
/// other fields and parameters stay as they are.
fn set_param_desc(params: &mut Vec<FnParam>, name: &str, desc: &str)
    ensures
        params_frame(old(params)@, final(params)@),
        forall|j: int|
            0 <= j < final(params)@.len() ==> if old(params)@[j].par_name@ == name@ {
                (#[trigger] final(params)@[j]).par_desc@ == desc@
            } else {
                final(params)@[j].par_desc == old(params)@[j].par_desc
            },
{
    let mut i: usize = 0;
    while i < params.len()
        invariant
            i <= params@.len(),
            params@.len() == old(params)@.len(),
            params_frame(old(params)@, params@),
            forall|j: int|
                0 <= j < i ==> if old(params)@[j].par_name@ == name@ {
                    (#[trigger] params@[j]).par_desc@ == desc@
                } else {
                    params@[j].par_desc == old(params)@[j].par_desc
                },
            forall|j: int| i <= j < params@.len() ==> #[trigger] params@[j] == old(params)@[j],
        decreases params@.len() - i,
    {
        if str_eq(params[i].par_name.as_str(), name) {
            let ghost pre = params@;
            let mut p = params.remove(i);
            p.par_desc = desc.to_owned();
            params.insert(i, p);
            proof {
                assert(params@ =~= pre.update(i as int, p));
            }
        }
        i = i + 1;
    }
}


/// The name views of a parameter list.
pub open spec fn param_names(ps: Seq<FnParam>) -> Seq<Seq<char>> {
    ps.map_values(|p: FnParam| p.par_name@)
}

/// The description views of a parameter list.
pub open spec fn param_descs(ps: Seq<FnParam>) -> Seq<Seq<char>> {
    ps.map_values(|p: FnParam| p.par_desc@)
}

/// One merge step: every parameter whose name matches takes the new
/// description, the rest keep theirs.
pub open spec fn merge_desc(
    names: Seq<Seq<char>>,
    descs: Seq<Seq<char>>,
    n: Seq<char>,
    d: Seq<char>,
) -> Seq<Seq<char>> {
    Seq::new(
        descs.len(),
        |j: int|
            if 0 <= j < names.len() && names[j] == n {
                d
            } else {
                descs[j]
            },
    )
}

/// The descriptions after a `param`-kind list is merged in: one merge per
/// `parameteritem` child, in source order, up to the close of `stop`; an
/// item matching no name changes nothing.
pub open spec fn params_scan(
    events: Seq<Event>,
    pos: int,
    stop: Seq<char>,
    names: Seq<Seq<char>>,
    descs: Seq<Seq<char>>,
) -> Option<(int, Seq<Seq<char>>)>
    decreases events.len() - pos,
    via params_scan_dec
{
    if pos < 0 || pos >= events.len() {
        None
    } else {
        match events[pos] {
            Event::Start { name, .. } => if name@ == "parameteritem"@ {
                match pair_scan(events, pos + 1, name@, Seq::empty(), Seq::empty()) {
                    Some(p) => params_scan(events, p.0, stop, names, merge_desc(
                        names,
                        descs,
                        p.1,
                        p.2,
                    )),
                    None => None,
                }
            } else {
                if text_end(events, pos + 1, name@) < 0 {
                    None
                } else {
                    params_scan(events, text_end(events, pos + 1, name@), stop, names, descs)
                }
            },
            Event::End { name } => if name@ == stop {
                Some((pos + 1, descs))
            } else {
                params_scan(events, pos + 1, stop, names, descs)
            },
            Event::Text { .. } => params_scan(events, pos + 1, stop, names, descs),
            Event::Other => params_scan(events, pos + 1, stop, names, descs),
            Event::Eof => None,
        }
    }
}

#[via_fn]
proof fn params_scan_dec(
    events: Seq<Event>,
    pos: int,
    stop: Seq<char>,
    names: Seq<Seq<char>>,
    descs: Seq<Seq<char>>,
) {
    if 0 <= pos < events.len() {
        match events[pos] {
            Event::Start { name, .. } => {
                lemma_scan_end_bounds(events, pos + 1, seq![name@]);
                lemma_pair_scan_bounds(events, pos + 1, name@, Seq::empty(), Seq::empty());
            },
            _ => {},
        }
    }
}

/// Merges a param-list of kind `param` into the already collected
/// parameter sequence by matching on parameter name; parameters the list
/// does not name keep their descriptions.
pub fn collect_params(events: &Vec<Event>, pos: usize, stop: &str, params: &mut Vec<FnParam>) -> (r:
    Result<usize, ParseError>)
    requires
        pos <= events@.len(),
    ensures
        r matches Ok(np) ==> pos < np <= events@.len(),
        params_frame(old(params)@, final(params)@),
        collects_pos_ok(events@, pos as int, stop@, r),
        r is Ok <==> params_scan(
            events@,
            pos as int,
            stop@,
            param_names(old(params)@),
            param_descs(old(params)@),
        ) is Some,
        r matches Ok(np) ==> params_scan(
            events@,
            pos as int,
            stop@,
            param_names(old(params)@),
            param_descs(old(params)@),
        ) == Some((np as int, param_descs(final(params)@))),
    decreases events@.len() - pos, 0int,
{
    let mut i = pos;
    proof {
        lemma_tracks_init(events@, pos as int, stop@, true);
    }
    while i < events.len()
        invariant
            pos <= i <= events@.len(),
            params_frame(old(params)@, params@),
            tracks(events@, pos as int, i as int, stop@, true),
            params_scan(
                events@,
                pos as int,
                stop@,
                param_names(old(params)@),
                param_descs(old(params)@),
            ) == params_scan(
                events@,
                i as int,
                stop@,
                param_names(old(params)@),
                param_descs(params@),
            ),
        decreases events@.len() - i,
    {
        match &events[i] {
            Event::Start { name, .. } => {
                let ghost nm = name@;
                if str_eq(name.as_str(), "parameteritem") {
                    match collect_parameter_item(events, i + 1, name.as_str()) {
                        Ok((np, item_name, item_desc)) => {
                            proof {
                                assert(consumed_ok(events@, (i + 1) as int, np as int, nm));
                                lemma_tracks_start_consumed(
                                    events@,
                                    pos as int,
                                    i as int,
                                    np as int,
                                    stop@,
                                    true,
                                    nm,
                                );
                            }
                            let ghost pre = params@;
                            // Add the desc to this param
                            set_param_desc(params, item_name.as_str(), item_desc.as_str());
                            proof {
                                assert(param_names(params@) =~= param_names(old(params)@));
                                assert(param_descs(params@) =~= merge_desc(
                                    param_names(old(params)@),
                                    param_descs(pre),
                                    item_name@,
                                    item_desc@,
                                ));
                            }
                            i = np;
                        },
                        Err(e) => {
                            proof {
                                lemma_tracks_inner_open(
                                    events@,
                                    pos as int,
                                    i as int,
                                    stop@,
                                    true,
                                    nm,
                                );
                            }
                            return Err(e);
                        },
                    }
                } else {
                    match collect_text(events, i + 1, name.as_str()) {
                        Ok((np, _t)) => {
                            proof {
                                assert(consumed_ok(events@, (i + 1) as int, np as int, nm));
                                lemma_tracks_start_consumed(
                                    events@,
                                    pos as int,
                                    i as int,
                                    np as int,
                                    stop@,
                                    true,
                                    nm,
                                );
                            }
                            i = np;
                        },
                        Err(e) => {
                            proof {
                                lemma_tracks_inner_open(
                                    events@,
                                    pos as int,
                                    i as int,
                                    stop@,
                                    true,
                                    nm,
                                );
                            }
                            return Err(e);
                        },
                    }
                }
            },
            Event::Text { .. } => {
                proof {
                    lemma_tracks_skip(events@, pos as int, i as int, stop@, true);
                }
                i = i + 1;
            },
            Event::End { name } => {
                if str_eq(name.as_str(), stop) {
                    proof {
                        lemma_tracks_end_returns(events@, pos as int, i as int, stop@, true);
                    }
                    return Ok(i + 1);
                }
                proof {
                    lemma_tracks_end_skipped(events@, pos as int, i as int, stop@, name@);
                }
                i = i + 1;
            },
            Event::Eof => {
                proof {
                    lemma_tracks_no_eof(events@, pos as int, i as int, stop@, true);
                }
                return Err(ParseError::Truncated);
            },
            Event::Other => {
                proof {
                    lemma_tracks_skip(events@, pos as int, i as int, stop@, true);
                }
                i = i + 1;
            },
        }
    }
    proof {
        lemma_tracks_no_eof(events@, pos as int, i as int, stop@, true);
    }
    Err(ParseError::Truncated)
}

/// `b` carries `a` unchanged as its prefix.
pub open spec fn seq_extended<T>(a: Seq<T>, b: Seq<T>) -> bool {
    a.len() <= b.len() && b.take(a.len() as int) == a
}

proof fn lemma_seq_extended_refl<T>(a: Seq<T>)
    ensures
        seq_extended(a, a),
{
    assert(a.take(a.len() as int) =~= a);
}

proof fn lemma_seq_extended_trans<T>(a: Seq<T>, b: Seq<T>, c: Seq<T>)
    requires
        seq_extended(a, b),
        seq_extended(b, c),
    ensures
        seq_extended(a, c),
{
    assert(c.take(a.len() as int) =~= c.take(b.len() as int).take(a.len() as int));
}

/// A freshly registered forward-reference placeholder: unresolved, with
/// nothing filled in but the name under which the reference was seen.
pub open spec fn fresh_placeholder(s: StructureInfo) -> bool {
    &&& s.str_type == StructureType::Unknown
    &&& s.str_brief@.len() == 0
    &&& s.str_description@.len() == 0
    &&& s.str_members@.len() == 0
}

/// The second map holds everything the first does, unchanged, and any key
/// of its own only as an unresolved placeholder.
pub open spec fn map_extended(a: StructMap, b: StructMap) -> bool {
    &&& forall|k: Seq<char>|
        a.spec_contains(k) ==> #[trigger] b.spec_get(k) == a.spec_get(k)
    &&& forall|k: Seq<char>|
        b.spec_contains(k) && !a.spec_contains(k) ==> ((#[trigger] b.spec_get(
            k,
        )) matches Some(s) && fresh_placeholder(s))
}

proof fn lemma_map_extended_trans(a: StructMap, b: StructMap, c: StructMap)
    requires
        map_extended(a, b),
        map_extended(b, c),
    ensures
        map_extended(a, c),
{
    assert forall|k: Seq<char>| a.spec_contains(k) implies #[trigger] c.spec_get(k) == a.spec_get(
        k,
    ) by {
        assert(b.spec_get(k) == a.spec_get(k));
        assert(b.spec_contains(k));
    }
    assert forall|k: Seq<char>| c.spec_contains(k) && !a.spec_contains(k) implies ((
    #[trigger] c.spec_get(k)) matches Some(s) && fresh_placeholder(s)) by {
        if b.spec_contains(k) {
            assert(c.spec_get(k) == b.spec_get(k));
        }
    }
}


pub proof fn lemma_retvals_scan_bounds(
    events: Seq<Event>,
    pos: int,
    stop: Seq<char>,
    rvs: Seq<(Seq<char>, Seq<char>)>,
)
    ensures
        retvals_scan(events, pos, stop, rvs) matches Some(p) ==> pos < p.0 <= events.len(),
    decreases events.len() - pos,
{
    if 0 <= pos < events.len() {
        match events[pos] {
            Event::Start { name, .. } => {
                lemma_scan_end_bounds(events, pos + 1, seq![name@]);
                lemma_pair_scan_bounds(events, pos + 1, name@, Seq::empty(), Seq::empty());
                match pair_scan(events, pos + 1, name@, Seq::empty(), Seq::empty()) {
                    Some(p) => {
                        lemma_retvals_scan_bounds(events, p.0, stop, rvs.push((p.1, p.2)));
                    },
                    None => {},
                }
                let e = text_end(events, pos + 1, name@);
                if e >= 0 {
                    lemma_retvals_scan_bounds(events, e, stop, rvs);
                }
            },
            Event::End { name } => {
                if name@ != stop {
                    lemma_retvals_scan_bounds(events, pos + 1, stop, rvs);
                }
            },
            Event::Text { .. } => {
                lemma_retvals_scan_bounds(events, pos + 1, stop, rvs);
            },
            Event::Other => {
                lemma_retvals_scan_bounds(events, pos + 1, stop, rvs);
            },
            Event::Eof => {},
        }
    }
}

pub proof fn lemma_params_scan_bounds(
    events: Seq<Event>,
    pos: int,
    stop: Seq<char>,
    names: Seq<Seq<char>>,
    descs: Seq<Seq<char>>,
)
    ensures
        params_scan(events, pos, stop, names, descs) matches Some(p) ==> pos < p.0
            <= events.len(),
    decreases events.len() - pos,
{
    if 0 <= pos < events.len() {
        match events[pos] {
            Event::Start { name, .. } => {
                lemma_scan_end_bounds(events, pos + 1, seq![name@]);
                lemma_pair_scan_bounds(events, pos + 1, name@, Seq::empty(), Seq::empty());
                match pair_scan(events, pos + 1, name@, Seq::empty(), Seq::empty()) {
                    Some(p) => {
                        lemma_params_scan_bounds(events, p.0, stop, names, merge_desc(
                            names,
                            descs,
                            p.1,
                            p.2,
                        ));
                    },
                    None => {},
                }
                let e = text_end(events, pos + 1, name@);
                if e >= 0 {
                    lemma_params_scan_bounds(events, e, stop, names, descs);
                }
            },
            Event::End { name } => {
                if name@ != stop {
                    lemma_params_scan_bounds(events, pos + 1, stop, names, descs);
                }
            },
            Event::Text { .. } => {
                lemma_params_scan_bounds(events, pos + 1, stop, names, descs);
            },
            Event::Other => {
                lemma_params_scan_bounds(events, pos + 1, stop, names, descs);
            },
            Event::Eof => {},
        }
    }
}


/// One open level of a detailed-description block: the narrative text,
/// return text, note text and return-value entries gathered at that level
/// and folded into the document when the level closes.
pub type DtlFrame = (Seq<char>, Seq<char>, Seq<char>, Seq<(Seq<char>, Seq<char>)>);

/// What a detailed-description block contributes to its document: the
/// suffixes appended to the detail, return and note texts and to the
/// return-value entries, and the parameter descriptions after merging.
pub type DtlOut = (Seq<char>, Seq<char>, Seq<char>, Seq<(Seq<char>, Seq<char>)>, Seq<Seq<char>>);

/// An empty detail level.
pub open spec fn dtl_frame0() -> DtlFrame {
    (Seq::empty(), Seq::empty(), Seq::empty(), Seq::empty())
}

/// A contribution that so far holds only the given parameter descriptions.
pub open spec fn dtl_out0(descs: Seq<Seq<char>>) -> DtlOut {
    (Seq::empty(), Seq::empty(), Seq::empty(), Seq::empty(), descs)
}

/// The walk of a detailed-description block, one machine step per event:
/// a `para` opens a nested level; a retval list replaces the level's
/// entries; a param list merges descriptions by name; return and note
/// sections land on the level's own texts; everything else is narrative.
/// A closing `para` folds its level into the contribution (narrative
/// right-trimmed, then a break); the close of `stop` at the outermost
/// level folds that level and finishes.
pub open spec fn dtl_scan(
    events: Seq<Event>,
    pos: int,
    stop: Seq<char>,
    names: Seq<Seq<char>>,
    frames: Seq<DtlFrame>,
    out: DtlOut,
) -> Option<(int, DtlOut)>
    decreases events.len() - pos,
    via dtl_scan_dec
{
    if pos < 0 || pos >= events.len() || frames.len() == 0 {
        None
    } else {
        let top = frames.last();
        match events[pos] {
            Event::Start { name, attrs } => if name@ == "para"@ {
                dtl_scan(events, pos + 1, stop, names, frames.push(dtl_frame0()), out)
            } else if name@ == "parameterlist"@ && attr_value(attrs@, "kind"@) == "retval"@ {
                match retvals_scan(events, pos + 1, name@, Seq::empty()) {
                    Some(p) => dtl_scan(
                        events,
                        p.0,
                        stop,
                        names,
                        frames.drop_last().push((top.0, top.1, top.2, p.1)),
                        out,
                    ),
                    None => None,
                }
            } else if name@ == "parameterlist"@ && attr_value(attrs@, "kind"@) == "param"@ {
                match params_scan(events, pos + 1, name@, names, out.4) {
                    Some(p) => dtl_scan(
                        events,
                        p.0,
                        stop,
                        names,
                        frames,
                        (out.0, out.1, out.2, out.3, p.1),
                    ),
                    None => None,
                }
            } else if name@ == "parameterlist"@ || name@ == "simplesect"@ {
                if text_end(events, pos + 1, name@) < 0 {
                    None
                } else {
                    let e = text_end(events, pos + 1, name@);
                    let v = text_val(events, pos + 1, name@);
                    let top2 = if name@ == "simplesect"@ && attr_value(attrs@, "kind"@)
                        == "return"@ {
                        (top.0, top.1 + v, top.2, top.3)
                    } else if name@ == "simplesect"@ && attr_value(attrs@, "kind"@) == "note"@ {
                        (top.0, top.1, top.2 + v, top.3)
                    } else {
                        (top.0 + v, top.1, top.2, top.3)
                    };
                    dtl_scan(events, e, stop, names, frames.drop_last().push(top2), out)
                }
            } else {
                if std_elem_end(events, pos + 1, name@) < 0 {
                    None
                } else {
                    dtl_scan(
                        events,
                        std_elem_end(events, pos + 1, name@),
                        stop,
                        names,
                        frames.drop_last().push(
                            (top.0 + std_elem_val(events, pos + 1, name@, attrs@), top.1, top.2,
                            top.3),
                        ),
                        out,
                    )
                }
            },
            Event::Text { text } => dtl_scan(
                events,
                pos + 1,
                stop,
                names,
                frames.drop_last().push((top.0 + text@, top.1, top.2, top.3)),
                out,
            ),
            Event::End { name } => if frames.len() > 1 && name@ == "para"@ {
                dtl_scan(
                    events,
                    pos + 1,
                    stop,
                    names,
                    frames.drop_last(),
                    (out.0 + trim_end_spec(top.0) + seq!['\n'], out.1 + top.1, out.2 + top.2,
                    out.3 + top.3, out.4),
                )
            } else if frames.len() == 1 && name@ == stop {
                Some(
                    (pos + 1, (out.0 + trim_end_spec(top.0), out.1 + top.1, out.2 + top.2, out.3
                        + top.3, out.4)),
                )
            } else {
                dtl_scan(events, pos + 1, stop, names, frames, out)
            },
            Event::Other => dtl_scan(events, pos + 1, stop, names, frames, out),
            Event::Eof => None,
        }
    }
}

#[via_fn]
proof fn dtl_scan_dec(
    events: Seq<Event>,
    pos: int,
    stop: Seq<char>,
    names: Seq<Seq<char>>,
    frames: Seq<DtlFrame>,
    out: DtlOut,
) {
    if 0 <= pos < events.len() {
        match events[pos] {
            Event::Start { name, .. } => {
                lemma_scan_end_bounds(events, pos + 1, seq![name@]);
                lemma_retvals_scan_bounds(events, pos + 1, name@, Seq::empty());
                lemma_params_scan_bounds(events, pos + 1, name@, names, out.4);
            },
            _ => {},
        }
    }
}

pub proof fn lemma_dtl_scan_bounds(
    events: Seq<Event>,
    pos: int,
    stop: Seq<char>,
    names: Seq<Seq<char>>,
    frames: Seq<DtlFrame>,
    out: DtlOut,
)
    ensures
        dtl_scan(events, pos, stop, names, frames, out) matches Some(p) ==> pos < p.0
            <= events.len(),
    decreases events.len() - pos,
{
    if 0 <= pos < events.len() && frames.len() >= 1 {
        let top = frames.last();
        match events[pos] {
            Event::Start { name, attrs } => {
                lemma_scan_end_bounds(events, pos + 1, seq![name@]);
                lemma_retvals_scan_bounds(events, pos + 1, name@, Seq::empty());
                lemma_params_scan_bounds(events, pos + 1, name@, names, out.4);
                lemma_dtl_scan_bounds(
                    events,
                    pos + 1,
                    stop,
                    names,
                    frames.push(dtl_frame0()),
                    out,
                );
                match retvals_scan(events, pos + 1, name@, Seq::empty()) {
                    Some(p) => {
                        lemma_dtl_scan_bounds(
                            events,
                            p.0,
                            stop,
                            names,
                            frames.drop_last().push((top.0, top.1, top.2, p.1)),
                            out,
                        );
                    },
                    None => {},
                }
                match params_scan(events, pos + 1, name@, names, out.4) {
                    Some(p) => {
                        lemma_dtl_scan_bounds(events, p.0, stop, names, frames, (out.0, out.1,
                        out.2, out.3, p.1));
                    },
                    None => {},
                }
                let e = text_end(events, pos + 1, name@);
                let v = text_val(events, pos + 1, name@);
                if e >= 0 {
                    lemma_dtl_scan_bounds(events, e, stop, names, frames.drop_last().push(
                        (top.0, top.1 + v, top.2, top.3),
                    ), out);
                    lemma_dtl_scan_bounds(events, e, stop, names, frames.drop_last().push(
                        (top.0, top.1, top.2 + v, top.3),
                    ), out);
                    lemma_dtl_scan_bounds(events, e, stop, names, frames.drop_last().push(
                        (top.0 + v, top.1, top.2, top.3),
                    ), out);
                }
                let e2 = std_elem_end(events, pos + 1, name@);
                if e2 >= 0 {
                    lemma_dtl_scan_bounds(events, e2, stop, names, frames.drop_last().push(
                        (top.0 + std_elem_val(events, pos + 1, name@, attrs@), top.1, top.2,
                        top.3),
                    ), out);
                }
            },
            Event::Text { text } => {
                lemma_dtl_scan_bounds(events, pos + 1, stop, names, frames.drop_last().push(
                    (top.0 + text@, top.1, top.2, top.3),
                ), out);
            },
            Event::End { name } => {
                if frames.len() > 1 && name@ == "para"@ {
                    lemma_dtl_scan_bounds(events, pos + 1, stop, names, frames.drop_last(), (out.0
                        + trim_end_spec(top.0) + seq!['\n'], out.1 + top.1, out.2 + top.2, out.3
                        + top.3, out.4));
                } else if !(frames.len() == 1 && name@ == stop) {
                    lemma_dtl_scan_bounds(events, pos + 1, stop, names, frames, out);
                }
            },
            Event::Other => {
                lemma_dtl_scan_bounds(events, pos + 1, stop, names, frames, out);
            },
            Event::Eof => {},
        }
    }
}


proof fn lemma_dtl_single(f: DtlFrame, g: DtlFrame)
    ensures
        seq![f].drop_last().push(g) == seq![g],
{
    assert(seq![f].drop_last().push(g) =~= seq![g]);
}

/// The walk's contribution is relative: running it from any already
/// accumulated contribution equals running it from an empty one over the
/// same descriptions and prefixing what was there.
pub proof fn lemma_dtl_shift(
    events: Seq<Event>,
    pos: int,
    stop: Seq<char>,
    names: Seq<Seq<char>>,
    frames: Seq<DtlFrame>,
    out: DtlOut,
)
    ensures
        dtl_scan(events, pos, stop, names, frames, out) == (match dtl_scan(
            events,
            pos,
            stop,
            names,
            frames,
            dtl_out0(out.4),
        ) {
            Some(p) => Some(
                (p.0, (out.0 + p.1.0, out.1 + p.1.1, out.2 + p.1.2, out.3 + p.1.3, p.1.4)),
            ),
            None => None::<(int, DtlOut)>,
        }),
    decreases events.len() - pos,
{
    if 0 <= pos < events.len() && frames.len() >= 1 {
        let top = frames.last();
        let z = dtl_out0(out.4);
        match events[pos] {
            Event::Start { name, attrs } => {
                lemma_scan_end_bounds(events, pos + 1, seq![name@]);
                lemma_retvals_scan_bounds(events, pos + 1, name@, Seq::empty());
                lemma_params_scan_bounds(events, pos + 1, name@, names, out.4);
                if name@ == "para"@ {
                    lemma_dtl_shift(events, pos + 1, stop, names, frames.push(dtl_frame0()), out);
                } else if name@ == "parameterlist"@ && attr_value(attrs@, "kind"@) == "retval"@ {
                    match retvals_scan(events, pos + 1, name@, Seq::empty()) {
                        Some(p) => {
                            lemma_dtl_shift(
                                events,
                                p.0,
                                stop,
                                names,
                                frames.drop_last().push((top.0, top.1, top.2, p.1)),
                                out,
                            );
                        },
                        None => {},
                    }
                } else if name@ == "parameterlist"@ && attr_value(attrs@, "kind"@) == "param"@ {
                    match params_scan(events, pos + 1, name@, names, out.4) {
                        Some(p) => {
                            lemma_dtl_shift(events, p.0, stop, names, frames, (out.0, out.1, out.2,
                            out.3, p.1));
                            assert((out.0, out.1, out.2, out.3, p.1).4 == p.1);
                            assert(dtl_out0(p.1) =~= (z.0, z.1, z.2, z.3, p.1));
                        },
                        None => {},
                    }
                } else if name@ == "parameterlist"@ || name@ == "simplesect"@ {
                    let e = text_end(events, pos + 1, name@);
                    let v = text_val(events, pos + 1, name@);
                    if e >= 0 {
                        let top2 = if name@ == "simplesect"@ && attr_value(attrs@, "kind"@)
                            == "return"@ {
                            (top.0, top.1 + v, top.2, top.3)
                        } else if name@ == "simplesect"@ && attr_value(attrs@, "kind"@)
                            == "note"@ {
                            (top.0, top.1, top.2 + v, top.3)
                        } else {
                            (top.0 + v, top.1, top.2, top.3)
                        };
                        lemma_dtl_shift(
                            events,
                            e,
                            stop,
                            names,
                            frames.drop_last().push(top2),
                            out,
                        );
                    }
                } else {
                    let e2 = std_elem_end(events, pos + 1, name@);
                    if e2 >= 0 {
                        lemma_dtl_shift(events, e2, stop, names, frames.drop_last().push(
                            (top.0 + std_elem_val(events, pos + 1, name@, attrs@), top.1, top.2,
                            top.3),
                        ), out);
                    }
                }
            },
            Event::Text { text } => {
                lemma_dtl_shift(events, pos + 1, stop, names, frames.drop_last().push(
                    (top.0 + text@, top.1, top.2, top.3),
                ), out);
            },
            Event::End { name } => {
                if frames.len() > 1 && name@ == "para"@ {
                    lemma_dtl_shift(events, pos + 1, stop, names, frames.drop_last(), (out.0
                        + trim_end_spec(top.0) + seq!['\n'], out.1 + top.1, out.2 + top.2, out.3
                        + top.3, out.4));
                    lemma_dtl_shift(events, pos + 1, stop, names, frames.drop_last(), (z.0
                        + trim_end_spec(top.0) + seq!['\n'], z.1 + top.1, z.2 + top.2, z.3 + top.3,
                    z.4));
                    assert((z.0 + trim_end_spec(top.0) + seq!['\n'], z.1 + top.1, z.2 + top.2, z.3
                        + top.3, z.4) =~= (trim_end_spec(top.0) + seq!['\n'], top.1, top.2, top.3,
                    out.4));
                    match dtl_scan(events, pos + 1, stop, names, frames.drop_last(), dtl_out0(
                        out.4,
                    )) {
                        Some(p) => {
                            assert((out.0 + trim_end_spec(top.0) + seq!['\n'] + p.1.0, out.1
                                + top.1 + p.1.1, out.2 + top.2 + p.1.2, out.3 + top.3 + p.1.3,
                            p.1.4) =~= (out.0 + (trim_end_spec(top.0) + seq!['\n'] + p.1.0), out.1
                                + (top.1 + p.1.1), out.2 + (top.2 + p.1.2), out.3 + (top.3
                                + p.1.3), p.1.4));
                        },
                        None => {},
                    }
                } else if frames.len() == 1 && name@ == stop {
                    assert((out.0 + (z.0 + trim_end_spec(top.0)), out.1 + (z.1 + top.1), out.2 + (
                    z.2 + top.2), out.3 + (z.3 + top.3), z.4) =~= (out.0 + trim_end_spec(top.0),
                    out.1 + top.1, out.2 + top.2, out.3 + top.3, out.4));
                } else {
                    lemma_dtl_shift(events, pos + 1, stop, names, frames, out);
                }
            },
            Event::Other => {
                lemma_dtl_shift(events, pos + 1, stop, names, frames, out);
            },
            Event::Eof => {},
        }
    }
}

/// Entering a nested level is the same as running that level on its own,
/// from an empty contribution over the same descriptions, and folding what
/// it yields — its narrative followed by a break, its return, note and
/// entry suffixes — into the enclosing walk.
pub proof fn lemma_dtl_push(
    events: Seq<Event>,
    pos: int,
    stop: Seq<char>,
    names: Seq<Seq<char>>,
    frames: Seq<DtlFrame>,
    f0: DtlFrame,
    out: DtlOut,
)
    requires
        frames.len() >= 1,
    ensures
        dtl_scan(events, pos, stop, names, frames.push(f0), out) == (match dtl_scan(
            events,
            pos,
            "para"@,
            names,
            seq![f0],
            dtl_out0(out.4),
        ) {
            Some(p) => dtl_scan(
                events,
                p.0,
                stop,
                names,
                frames,
                (out.0 + p.1.0 + seq!['\n'], out.1 + p.1.1, out.2 + p.1.2, out.3 + p.1.3,
                p.1.4),
            ),
            None => None,
        }),
    decreases events.len() - pos,
{
    if 0 <= pos < events.len() {
        let top = f0;
        assert(frames.push(f0).last() == f0);
        assert(frames.push(f0).drop_last() =~= frames);
        assert(seq![f0].last() == f0);
        assert(seq![f0].drop_last() =~= Seq::<DtlFrame>::empty());
        match events[pos] {
            Event::Start { name, attrs } => {
                lemma_scan_end_bounds(events, pos + 1, seq![name@]);
                lemma_retvals_scan_bounds(events, pos + 1, name@, Seq::empty());
                lemma_params_scan_bounds(events, pos + 1, name@, names, out.4);
                if name@ == "para"@ {
                    lemma_dtl_push(events, pos + 1, stop, names, frames.push(f0), dtl_frame0(), out);
                    lemma_dtl_push(
                        events,
                        pos + 1,
                        "para"@,
                        names,
                        seq![f0],
                        dtl_frame0(),
                        dtl_out0(out.4),
                    );
                    lemma_dtl_scan_bounds(
                        events,
                        pos + 1,
                        "para"@,
                        names,
                        seq![dtl_frame0()],
                        dtl_out0(out.4),
                    );
                    match dtl_scan(
                        events,
                        pos + 1,
                        "para"@,
                        names,
                        seq![dtl_frame0()],
                        dtl_out0(out.4),
                    ) {
                        Some(q) => {
                            let outq = (out.0 + q.1.0 + seq!['\n'], out.1 + q.1.1, out.2 + q.1.2,
                            out.3 + q.1.3, q.1.4);
                            lemma_dtl_push(events, q.0, stop, names, frames, f0, outq);
                            let x = (q.1.0 + seq!['\n'], q.1.1, q.1.2, q.1.3, q.1.4);
                            assert((dtl_out0(out.4).0 + q.1.0 + seq!['\n'], dtl_out0(out.4).1
                                + q.1.1, dtl_out0(out.4).2 + q.1.2, dtl_out0(out.4).3 + q.1.3,
                            q.1.4) =~= x);
                            lemma_dtl_shift(events, q.0, "para"@, names, seq![f0], x);
                            lemma_dtl_scan_bounds(
                                events,
                                q.0,
                                "para"@,
                                names,
                                seq![f0],
                                dtl_out0(q.1.4),
                            );
                            assert(dtl_out0(x.4) =~= dtl_out0(q.1.4));
                            assert(dtl_out0(outq.4) =~= dtl_out0(q.1.4));
                            match dtl_scan(events, q.0, "para"@, names, seq![f0], dtl_out0(
                                q.1.4,
                            )) {
                                Some(p2) => {
                                    assert((out.0 + (x.0 + p2.1.0) + seq!['\n'], out.1 + (x.1
                                        + p2.1.1), out.2 + (x.2 + p2.1.2), out.3 + (x.3 + p2.1.3),
                                    p2.1.4) =~= (outq.0 + p2.1.0 + seq!['\n'], outq.1 + p2.1.1,
                                    outq.2 + p2.1.2, outq.3 + p2.1.3, p2.1.4));
                                },
                                None => {},
                            }
                        },
                        None => {},
                    }
                } else if name@ == "parameterlist"@ && attr_value(attrs@, "kind"@) == "retval"@ {
                    match retvals_scan(events, pos + 1, name@, Seq::empty()) {
                        Some(p) => {
                            assert(frames.push(f0).drop_last().push((f0.0, f0.1, f0.2, p.1))
                                =~= frames.push((f0.0, f0.1, f0.2, p.1)));
                            assert(seq![f0].drop_last().push((f0.0, f0.1, f0.2, p.1)) =~= seq![
                                (f0.0, f0.1, f0.2, p.1),
                            ]);
                            lemma_dtl_push(
                                events,
                                p.0,
                                stop,
                                names,
                                frames,
                                (f0.0, f0.1, f0.2, p.1),
                                out,
                            );
                        },
                        None => {},
                    }
                } else if name@ == "parameterlist"@ && attr_value(attrs@, "kind"@) == "param"@ {
                    match params_scan(events, pos + 1, name@, names, out.4) {
                        Some(p) => {
                            lemma_dtl_push(events, p.0, stop, names, frames, f0, (out.0, out.1,
                            out.2, out.3, p.1));
                            assert(dtl_out0(out.4).4 == out.4);
                            assert((dtl_out0(out.4).0, dtl_out0(out.4).1, dtl_out0(out.4).2,
                            dtl_out0(out.4).3, p.1) =~= dtl_out0(p.1));
                        },
                        None => {},
                    }
                } else if name@ == "parameterlist"@ || name@ == "simplesect"@ {
                    let e = text_end(events, pos + 1, name@);
                    let v = text_val(events, pos + 1, name@);
                    if e >= 0 {
                        let top2 = if name@ == "simplesect"@ && attr_value(attrs@, "kind"@)
                            == "return"@ {
                            (f0.0, f0.1 + v, f0.2, f0.3)
                        } else if name@ == "simplesect"@ && attr_value(attrs@, "kind"@)
                            == "note"@ {
                            (f0.0, f0.1, f0.2 + v, f0.3)
                        } else {
                            (f0.0 + v, f0.1, f0.2, f0.3)
                        };
                        assert(frames.push(f0).drop_last().push(top2) =~= frames.push(top2));
                        assert(seq![f0].drop_last().push(top2) =~= seq![top2]);
                        lemma_dtl_push(events, e, stop, names, frames, top2, out);
                    }
                } else {
                    let e2 = std_elem_end(events, pos + 1, name@);
                    if e2 >= 0 {
                        let top2 = (f0.0 + std_elem_val(events, pos + 1, name@, attrs@), f0.1,
                        f0.2, f0.3);
                        assert(frames.push(f0).drop_last().push(top2) =~= frames.push(top2));
                        assert(seq![f0].drop_last().push(top2) =~= seq![top2]);
                        lemma_dtl_push(events, e2, stop, names, frames, top2, out);
                    }
                }
            },
            Event::Text { text } => {
                let top2 = (f0.0 + text@, f0.1, f0.2, f0.3);
                assert(frames.push(f0).drop_last().push(top2) =~= frames.push(top2));
                assert(seq![f0].drop_last().push(top2) =~= seq![top2]);
                lemma_dtl_push(events, pos + 1, stop, names, frames, top2, out);
            },
            Event::End { name } => {
                if name@ == "para"@ {
                    // The nested level closes: the enclosing walk pops it,
                    // the level run on its own finishes here.
                    assert((dtl_out0(out.4).0 + trim_end_spec(f0.0), dtl_out0(out.4).1 + f0.1,
                    dtl_out0(out.4).2 + f0.2, dtl_out0(out.4).3 + f0.3, dtl_out0(out.4).4) =~= (
                    trim_end_spec(f0.0), f0.1, f0.2, f0.3, out.4));
                    assert((out.0 + trim_end_spec(f0.0) + seq!['\n'], out.1 + f0.1, out.2 + f0.2,
                    out.3 + f0.3, out.4) =~= (out.0 + (trim_end_spec(f0.0)) + seq!['\n'], out.1
                        + (f0.1), out.2 + (f0.2), out.3 + (f0.3), out.4));
                } else {
                    lemma_dtl_push(events, pos + 1, stop, names, frames, f0, out);
                }
            },
            Event::Other => {
                lemma_dtl_push(events, pos + 1, stop, names, frames, f0, out);
            },
            Event::Eof => {},
        }
    }
}

/// Called from a detailed-description block: splits its immediate children
/// into narrative text, return text, notes, return-value entries and
/// parameter descriptions, and folds them into the document, appending to
/// what was already collected.
#[verifier::rlimit(100)]
#[verifier::spinoff_prover]
pub fn collect_detail_bits(
    events: &Vec<Event>,
    pos: usize,
    stop: &str,
    function: &mut FunctionInfo,
) -> (r: Result<usize, ParseError>)
    requires
        pos <= events@.len(),
    ensures
        r matches Ok(np) ==> pos < np <= events@.len(),
        final(function).fn_type == old(function).fn_type,
        final(function).fn_name == old(function).fn_name,
        final(function).fn_def == old(function).fn_def,
        final(function).fn_argsstring == old(function).fn_argsstring,
        final(function).fn_brief == old(function).fn_brief,
        final(function).fn_defines@ == old(function).fn_defines@,
        final(function).fn_refids@ == old(function).fn_refids@,
        seq_extended(old(function).fn_detail@, final(function).fn_detail@),
        seq_extended(old(function).fn_returnval@, final(function).fn_returnval@),
        seq_extended(old(function).fn_note@, final(function).fn_note@),
        seq_extended(old(function).fn_retvals@, final(function).fn_retvals@),
        params_frame(old(function).fn_args@, final(function).fn_args@),
        collects_pos_ok(events@, pos as int, stop@, r),
        r is Ok <==> dtl_scan(
            events@,
            pos as int,
            stop@,
            param_names(old(function).fn_args@),
            seq![dtl_frame0()],
            dtl_out0(param_descs(old(function).fn_args@)),
        ) is Some,
        r matches Ok(np) ==> (dtl_scan(
            events@,
            pos as int,
            stop@,
            param_names(old(function).fn_args@),
            seq![dtl_frame0()],
            dtl_out0(param_descs(old(function).fn_args@)),
        ) matches Some(p) && p.0 == np as int && final(function).fn_detail@ == old(
            function,
        ).fn_detail@ + p.1.0 && final(function).fn_returnval@ == old(function).fn_returnval@
            + p.1.1 && final(function).fn_note@ == old(function).fn_note@ + p.1.2 && retval_views(
            final(function).fn_retvals@,
        ) == retval_views(old(function).fn_retvals@) + p.1.3 && param_descs(
            final(function).fn_args@,
        ) == p.1.4),
    decreases events@.len() - pos, 0int,
{
    let mut text = String::new();
    let mut return_text = String::new();
    let mut notes = String::new();
    let mut retvals = Vec::<ReturnVal>::new();
    let mut i = pos;
    let ghost names0 = param_names(old(function).fn_args@);
    let ghost out0 = dtl_out0(param_descs(old(function).fn_args@));
    let ghost mut d_det: Seq<char> = Seq::empty();
    let ghost mut d_ret: Seq<char> = Seq::empty();
    let ghost mut d_note: Seq<char> = Seq::empty();
    let ghost mut d_rvs: Seq<(Seq<char>, Seq<char>)> = Seq::empty();
    proof {
        lemma_seq_extended_refl(old(function).fn_detail@);
        lemma_seq_extended_refl(old(function).fn_returnval@);
        lemma_seq_extended_refl(old(function).fn_note@);
        lemma_seq_extended_refl(old(function).fn_retvals@);
        lemma_tracks_init(events@, pos as int, stop@, true);
        assert(retval_views(retvals@) =~= Seq::<(Seq<char>, Seq<char>)>::empty());
        assert((text@, return_text@, notes@, retval_views(retvals@)) =~= dtl_frame0());
        assert((d_det, d_ret, d_note, d_rvs, param_descs(function.fn_args@)) =~= out0);
        assert(old(function).fn_detail@ + d_det =~= old(function).fn_detail@);
        assert(old(function).fn_returnval@ + d_ret =~= old(function).fn_returnval@);
        assert(old(function).fn_note@ + d_note =~= old(function).fn_note@);
        assert(retval_views(old(function).fn_retvals@) + d_rvs =~= retval_views(
            old(function).fn_retvals@,
        ));
    }
    while i < events.len()
        invariant
            pos <= i <= events@.len(),
            tracks(events@, pos as int, i as int, stop@, true),
            names0 == param_names(old(function).fn_args@),
            out0 == dtl_out0(param_descs(old(function).fn_args@)),
            param_names(function.fn_args@) == names0,
            function.fn_detail@ == old(function).fn_detail@ + d_det,
            function.fn_returnval@ == old(function).fn_returnval@ + d_ret,
            function.fn_note@ == old(function).fn_note@ + d_note,
            retval_views(function.fn_retvals@) == retval_views(old(function).fn_retvals@) + d_rvs,
            dtl_scan(events@, pos as int, stop@, names0, seq![dtl_frame0()], out0) == dtl_scan(
                events@,
                i as int,
                stop@,
                names0,
                seq![(text@, return_text@, notes@, retval_views(retvals@))],
                (d_det, d_ret, d_note, d_rvs, param_descs(function.fn_args@)),
            ),
            function.fn_type == old(function).fn_type,
            function.fn_name == old(function).fn_name,
            function.fn_def == old(function).fn_def,
            function.fn_argsstring == old(function).fn_argsstring,
            function.fn_brief == old(function).fn_brief,
            function.fn_defines@ == old(function).fn_defines@,
            function.fn_refids@ == old(function).fn_refids@,
            seq_extended(old(function).fn_detail@, function.fn_detail@),
            seq_extended(old(function).fn_returnval@, function.fn_returnval@),
            seq_extended(old(function).fn_note@, function.fn_note@),
            seq_extended(old(function).fn_retvals@, function.fn_retvals@),
            params_frame(old(function).fn_args@, function.fn_args@),
        decreases events@.len() - i,
    {
        match &events[i] {
            Event::Start { name, attrs } => {
                let ghost nm = name@;
                if str_eq(name.as_str(), "para") {
                    let ghost mid = *function;
                    let ghost fcur = (text@, return_text@, notes@, retval_views(retvals@));
                    let ghost ocur = (d_det, d_ret, d_note, d_rvs, param_descs(mid.fn_args@));
                    match collect_detail_bits(events, i + 1, name.as_str(), function) {
                        Ok(np) => {
                            let ghost mid2 = *function;
                            function.fn_detail.append("\n");
                            proof {
                                assert(consumed_ok(events@, (i + 1) as int, np as int, nm));
                                lemma_tracks_start_consumed(
                                    events@,
                                    pos as int,
                                    i as int,
                                    np as int,
                                    stop@,
                                    true,
                                    nm,
                                );
                                assert(param_names(mid.fn_args@) == names0);
                                lemma_dtl_push(
                                    events@,
                                    (i + 1) as int,
                                    stop@,
                                    names0,
                                    seq![fcur],
                                    dtl_frame0(),
                                    ocur,
                                );
                                let inner = dtl_scan(
                                    events@,
                                    (i + 1) as int,
                                    "para"@,
                                    names0,
                                    seq![dtl_frame0()],
                                    dtl_out0(param_descs(mid.fn_args@)),
                                );
                                assert(inner is Some);
                                let p = inner->Some_0;
                                assert(p.0 == np as int);
                                reveal_strlit("\n");
                                assert("\n"@ =~= seq!['\n']);
                                d_det = d_det + p.1.0 + seq!['\n'];
                                d_ret = d_ret + p.1.1;
                                d_note = d_note + p.1.2;
                                d_rvs = d_rvs + p.1.3;
                                assert(function.fn_detail@ == old(function).fn_detail@ + d_det) by {
                                    assert(old(function).fn_detail@ + (ocur.0 + p.1.0 + seq![
                                        '\n',
                                    ]) =~= old(function).fn_detail@ + ocur.0 + p.1.0 + seq!['\n']);
                                }
                                assert(function.fn_returnval@ == old(function).fn_returnval@
                                    + d_ret) by {
                                    assert(old(function).fn_returnval@ + (ocur.1 + p.1.1) =~= old(
                                        function,
                                    ).fn_returnval@ + ocur.1 + p.1.1);
                                }
                                assert(function.fn_note@ == old(function).fn_note@ + d_note) by {
                                    assert(old(function).fn_note@ + (ocur.2 + p.1.2) =~= old(
                                        function,
                                    ).fn_note@ + ocur.2 + p.1.2);
                                }
                                assert(retval_views(function.fn_retvals@) == retval_views(
                                    old(function).fn_retvals@,
                                ) + d_rvs) by {
                                    assert(retval_views(old(function).fn_retvals@) + (ocur.3
                                        + p.1.3) =~= retval_views(old(function).fn_retvals@)
                                        + ocur.3 + p.1.3);
                                }
                                assert((ocur.0 + p.1.0 + seq!['\n'], ocur.1 + p.1.1, ocur.2
                                    + p.1.2, ocur.3 + p.1.3, p.1.4) =~= (d_det, d_ret, d_note,
                                d_rvs, param_descs(function.fn_args@)));
                                assert(param_names(function.fn_args@) =~= param_names(
                                    mid.fn_args@,
                                ));
                                assert(seq_extended(mid2.fn_detail@, function.fn_detail@)) by {
                                    assert(function.fn_detail@.take(mid2.fn_detail@.len() as int)
                                        =~= mid2.fn_detail@);
                                }
                                lemma_seq_extended_trans(
                                    mid.fn_detail@,
                                    mid2.fn_detail@,
                                    function.fn_detail@,
                                );
                                lemma_seq_extended_trans(
                                    old(function).fn_detail@,
                                    mid.fn_detail@,
                                    function.fn_detail@,
                                );
                                lemma_seq_extended_trans(
                                    old(function).fn_returnval@,
                                    mid.fn_returnval@,
                                    function.fn_returnval@,
                                );
                                lemma_seq_extended_trans(
                                    old(function).fn_note@,
                                    mid.fn_note@,
                                    function.fn_note@,
                                );
                                lemma_seq_extended_trans(
                                    old(function).fn_retvals@,
                                    mid.fn_retvals@,
                                    function.fn_retvals@,
                                );
                            }
                            i = np;
                        },
                        Err(e) => {
                            proof {
                                lemma_tracks_inner_open(
                                    events@,
                                    pos as int,
                                    i as int,
                                    stop@,
                                    true,
                                    nm,
                                );
                                assert(param_names(mid.fn_args@) == names0);
                                lemma_dtl_push(
                                    events@,
                                    (i + 1) as int,
                                    stop@,
                                    names0,
                                    seq![fcur],
                                    dtl_frame0(),
                                    ocur,
                                );
                                lemma_seq_extended_trans(
                                    old(function).fn_detail@,
                                    mid.fn_detail@,
                                    function.fn_detail@,
                                );
                                lemma_seq_extended_trans(
                                    old(function).fn_returnval@,
                                    mid.fn_returnval@,
                                    function.fn_returnval@,
                                );
                                lemma_seq_extended_trans(
                                    old(function).fn_note@,
                                    mid.fn_note@,
                                    function.fn_note@,
                                );
                                lemma_seq_extended_trans(
                                    old(function).fn_retvals@,
                                    mid.fn_retvals@,
                                    function.fn_retvals@,
                                );
                            }
                            return Err(e);
                        },
                    }
                } else if str_eq(name.as_str(), "parameterlist") {
                    let kind = get_attr(attrs, "kind");
                    if str_eq(kind.as_str(), "retval") {
                        let ghost fcur = (text@, return_text@, notes@, retval_views(retvals@));
                        match collect_retvals(events, i + 1, name.as_str()) {
                            Ok((np, rvs)) => {
                                proof {
                                    assert(consumed_ok(events@, (i + 1) as int, np as int, nm));
                                    lemma_tracks_start_consumed(
                                        events@,
                                        pos as int,
                                        i as int,
                                        np as int,
                                        stop@,
                                        true,
                                        nm,
                                    );
                                    lemma_dtl_single(
                                        fcur,
                                        (text@, return_text@, notes@, retval_views(rvs@)),
                                    );
                                }
                                retvals = rvs;
                                i = np;
                            },
                            Err(e) => {
                                proof {
                                    lemma_tracks_inner_open(
                                        events@,
                                        pos as int,
                                        i as int,
                                        stop@,
                                        true,
                                        nm,
                                    );
                                }
                                return Err(e);
                            },
                        }
                    } else if str_eq(kind.as_str(), "param") {
                        let ghost pre_args = function.fn_args@;
                        match collect_params(events, i + 1, name.as_str(), &mut function.fn_args) {
                            Ok(np) => {
                                proof {
                                    assert(consumed_ok(events@, (i + 1) as int, np as int, nm));
                                    lemma_tracks_start_consumed(
                                        events@,
                                        pos as int,
                                        i as int,
                                        np as int,
                                        stop@,
                                        true,
                                        nm,
                                    );
                                    assert(param_names(function.fn_args@) =~= param_names(
                                        pre_args,
                                    ));
                                }
                                i = np;
                            },
                            Err(e) => {
                                proof {
                                    lemma_tracks_inner_open(
                                        events@,
                                        pos as int,
                                        i as int,
                                        stop@,
                                        true,
                                        nm,
                                    );
                                }
                                return Err(e);
                            },
                        }
                    } else {
                        let ghost fcur = (text@, return_text@, notes@, retval_views(retvals@));
                        match collect_text(events, i + 1, name.as_str()) {
                            Ok((np, t)) => {
                                proof {
                                    assert(consumed_ok(events@, (i + 1) as int, np as int, nm));
                                    lemma_tracks_start_consumed(
                                        events@,
                                        pos as int,
                                        i as int,
                                        np as int,
                                        stop@,
                                        true,
                                        nm,
                                    );
                                    reveal_strlit("parameterlist");
                                    reveal_strlit("simplesect");
                                    assert("parameterlist"@.len() == 13);
                                    assert("simplesect"@.len() == 10);
                                    assert(nm != "simplesect"@);
                                    lemma_dtl_single(
                                        fcur,
                                        (text@ + t@, return_text@, notes@, retval_views(retvals@)),
                                    );
                                }
                                text.append(t.as_str());
                                i = np;
                            },
                            Err(e) => {
                                proof {
                                    lemma_tracks_inner_open(
                                        events@,
                                        pos as int,
                                        i as int,
                                        stop@,
                                        true,
                                        nm,
                                    );
                                }
                                return Err(e);
                            },
                        }
                    }
                } else if str_eq(name.as_str(), "simplesect") {
                    let kind = get_attr(attrs, "kind");
                    let ghost fcur = (text@, return_text@, notes@, retval_views(retvals@));
                    match collect_text(events, i + 1, name.as_str()) {
                        Ok((np, t)) => {
                            if str_eq(kind.as_str(), "return") {
                                proof {
                                    lemma_dtl_single(
                                        fcur,
                                        (text@, return_text@ + t@, notes@, retval_views(retvals@)),
                                    );
                                }
                                return_text.append(t.as_str());
                            } else if str_eq(kind.as_str(), "note") {
                                proof {
                                    lemma_dtl_single(
                                        fcur,
                                        (text@, return_text@, notes@ + t@, retval_views(retvals@)),
                                    );
                                }
                                notes.append(t.as_str());
                            } else {
                                proof {
                                    lemma_dtl_single(
                                        fcur,
                                        (text@ + t@, return_text@, notes@, retval_views(retvals@)),
                                    );
                                }
                                text.append(t.as_str());
                            }
                            proof {
                                assert(consumed_ok(events@, (i + 1) as int, np as int, nm));
                                lemma_tracks_start_consumed(
                                    events@,
                                    pos as int,
                                    i as int,
                                    np as int,
                                    stop@,
                                    true,
                                    nm,
                                );
                            }
                            i = np;
                        },
                        Err(e) => {
                            proof {
                                lemma_tracks_inner_open(
                                    events@,
                                    pos as int,
                                    i as int,
                                    stop@,
                                    true,
                                    nm,
                                );
                            }
                            return Err(e);
                        },
                    }
                } else {
                    let ghost fcur = (text@, return_text@, notes@, retval_views(retvals@));
                    match parse_standard_elements(events, i + 1, name.as_str(), attrs) {
                        Ok((np, t)) => {
                            proof {
                                assert(consumed_ok(events@, (i + 1) as int, np as int, nm));
                                lemma_tracks_start_consumed(
                                    events@,
                                    pos as int,
                                    i as int,
                                    np as int,
                                    stop@,
                                    true,
                                    nm,
                                );
                                lemma_dtl_single(
                                    fcur,
                                    (text@ + t@, return_text@, notes@, retval_views(retvals@)),
                                );
                            }
                            text.append(t.as_str());
                            i = np;
                        },
                        Err(e) => {
                            proof {
                                lemma_tracks_inner_open(
                                    events@,
                                    pos as int,
                                    i as int,
                                    stop@,
                                    true,
                                    nm,
                                );
                            }
                            return Err(e);
                        },
                    }
                }
            },
            Event::Text { text: t } => {
                proof {
                    lemma_tracks_skip(events@, pos as int, i as int, stop@, true);
                    lemma_dtl_single(
                        (text@, return_text@, notes@, retval_views(retvals@)),
                        (text@ + t@, return_text@, notes@, retval_views(retvals@)),
                    );
                }
                text.append(t.as_str());
                i = i + 1;
            },
            Event::End { name } => {
                // Only return if we are at the end of the element that
                // called us.
                if str_eq(name.as_str(), stop) {
                    proof {
                        lemma_tracks_end_returns(events@, pos as int, i as int, stop@, true);
                    }
                    let ghost mid = *function;
                    let ghost fcur = (text@, return_text@, notes@, retval_views(retvals@));
                    let trimmed = trim_end(text.as_str());
                    function.fn_detail.append(trimmed.as_str());
                    function.fn_returnval.append(return_text.as_str());
                    function.fn_note.append(notes.as_str());
                    function.fn_retvals.append(&mut retvals);
                    proof {
                        assert(seq_extended(mid.fn_detail@, function.fn_detail@)) by {
                            assert(function.fn_detail@.take(mid.fn_detail@.len() as int)
                                =~= mid.fn_detail@);
                        }
                        assert(seq_extended(mid.fn_returnval@, function.fn_returnval@)) by {
                            assert(function.fn_returnval@.take(mid.fn_returnval@.len() as int)
                                =~= mid.fn_returnval@);
                        }
                        assert(seq_extended(mid.fn_note@, function.fn_note@)) by {
                            assert(function.fn_note@.take(mid.fn_note@.len() as int)
                                =~= mid.fn_note@);
                        }
                        assert(seq_extended(mid.fn_retvals@, function.fn_retvals@)) by {
                            assert(function.fn_retvals@.take(mid.fn_retvals@.len() as int)
                                =~= mid.fn_retvals@);
                        }
                        lemma_seq_extended_trans(
                            old(function).fn_detail@,
                            mid.fn_detail@,
                            function.fn_detail@,
                        );
                        lemma_seq_extended_trans(
                            old(function).fn_returnval@,
                            mid.fn_returnval@,
                            function.fn_returnval@,
                        );
                        lemma_seq_extended_trans(
                            old(function).fn_note@,
                            mid.fn_note@,
                            function.fn_note@,
                        );
                        lemma_seq_extended_trans(
                            old(function).fn_retvals@,
                            mid.fn_retvals@,
                            function.fn_retvals@,
                        );
                        assert(retval_views(function.fn_retvals@) =~= retval_views(
                            mid.fn_retvals@,
                        ) + fcur.3);
                        assert(function.fn_detail@ =~= old(function).fn_detail@ + (d_det
                            + trim_end_spec(fcur.0)));
                        assert(function.fn_returnval@ =~= old(function).fn_returnval@ + (d_ret
                            + fcur.1));
                        assert(function.fn_note@ =~= old(function).fn_note@ + (d_note + fcur.2));
                        assert(retval_views(function.fn_retvals@) =~= retval_views(
                            old(function).fn_retvals@,
                        ) + (d_rvs + fcur.3));
                    }
                    return Ok(i + 1);
                }
                proof {
                    lemma_tracks_end_skipped(events@, pos as int, i as int, stop@, name@);
                }
                i = i + 1;
            },
            Event::Eof => {
                proof {
                    lemma_tracks_no_eof(events@, pos as int, i as int, stop@, true);
                }
                return Err(ParseError::Truncated);
            },
            Event::Other => {
                proof {
                    lemma_tracks_skip(events@, pos as int, i as int, stop@, true);
                }
                i = i + 1;
            },
        }
    }
    proof {
        lemma_tracks_no_eof(events@, pos as int, i as int, stop@, true);
    }
    Err(ParseError::Truncated)
}

/// Collects one function parameter: its declared type (with any
/// cross-reference target) and its name. A reference to a structure not
/// seen yet registers an unresolved placeholder under its identifier.
pub fn collect_function_param(events: &Vec<Event>, pos: usize, structures: &mut StructMap) -> (r:
    Result<(usize, FnParam), ParseError>)
    requires
        pos <= events@.len(),
    ensures
        r matches Ok(p) ==> pos < p.0 <= events@.len(),
        map_extended(*old(structures), *final(structures)),
        r matches Ok(p) ==> (p.1.par_refid matches Some(id) ==> final(structures).spec_contains(
            id@,
        )),
        r matches Ok(p) ==> p.1.par_args@.len() == 0 && p.1.par_desc@.len() == 0
            && p.1.par_brief@.len() == 0,
        collects_any_ok(events@, pos as int, r),
        r is Ok <==> fp_scan(events@, pos as int, Seq::empty(), Seq::empty(), None) is Some,
        r matches Ok(p) ==> fp_scan(events@, pos as int, Seq::empty(), Seq::empty(), None)
            == Some((p.0 as int, p.1.par_name@, p.1.par_type@, opt_view(p.1.par_refid))),
    decreases events@.len() - pos, 0int,
{
    let mut par_name = String::new();
    let mut par_type = String::new();
    let mut par_refid: Option<String> = None;
    let mut i = pos;
    proof {
        lemma_tracks_init(events@, pos as int, Seq::empty(), false);
    }
    while i < events.len()
        invariant
            pos <= i <= events@.len(),
            map_extended(*old(structures), *structures),
            par_refid matches Some(id) ==> structures.spec_contains(id@),
            tracks(events@, pos as int, i as int, Seq::empty(), false),
            fp_scan(events@, pos as int, Seq::empty(), Seq::empty(), None) == fp_scan(
                events@,
                i as int,
                par_name@,
                par_type@,
                opt_view(par_refid),
            ),
        decreases events@.len() - i,
    {
        match &events[i] {
            Event::Start { name, .. } => {
                let ghost nm = name@;
                match collect_text_and_refid(events, i + 1) {
                    Ok((np, tmp, refid)) => {
                        proof {
                            assert(consumed_ok(events@, (i + 1) as int, np as int, nm));
                            lemma_tracks_start_consumed(
                                events@,
                                pos as int,
                                i as int,
                                np as int,
                                Seq::empty(),
                                false,
                                nm,
                            );
                            reveal_strlit("type");
                            reveal_strlit("declname");
                            assert("type"@.len() == 4);
                            assert("declname"@.len() == 8);
                            assert("type"@ != "declname"@);
                        }
                        let ghost mid = *structures;
                        if let Some(rid) = &refid {
                            let absent = match structures.get(rid.as_str()) {
                                None => true,
                                Some(_) => false,
                            };
                            if absent {
                                let placeholder = StructureInfo {
                                    str_type: StructureType::Unknown,
                                    str_name: tmp.clone(),
                                    str_brief: String::new(),
                                    str_description: String::new(),
                                    str_members: Vec::<FnParam>::new(),
                                };
                                structures.insert(rid.clone(), placeholder);
                                proof {
                                    assert(map_extended(mid, *structures));
                                    lemma_map_extended_trans(*old(structures), mid, *structures);
                                }
                            }
                        }
                        if str_eq(name.as_str(), "type") {
                            par_type = tmp.clone();
                            par_refid = match &refid {
                                Some(s) => Some(s.clone()),
                                None => None,
                            };
                        }
                        if str_eq(name.as_str(), "declname") {
                            par_name = tmp.clone();
                        }
                        proof {
                            if par_refid is Some {
                                let ghost id = par_refid->Some_0;
                                if mid.spec_contains(id@) {
                                    assert(structures.spec_get(id@) == mid.spec_get(id@));
                                }
                            }
                        }
                        i = np;
                    },
                    Err(e) => {
                        proof {
                            lemma_tracks_inner_open(
                                events@,
                                pos as int,
                                i as int,
                                Seq::empty(),
                                false,
                                nm,
                            );
                        }
                        return Err(e);
                    },
                }
            },
            Event::End { .. } => {
                proof {
                    lemma_tracks_end_returns(events@, pos as int, i as int, Seq::empty(), false);
                }
                return Ok(
                    (
                        i + 1,
                        FnParam {
                            par_name,
                            par_type,
                            par_refid,
                            par_args: String::new(),
                            par_desc: String::new(),
                            par_brief: String::new(),
                        },
                    ),
                );
            },
            Event::Text { .. } => {
                proof {
                    lemma_tracks_skip(events@, pos as int, i as int, Seq::empty(), false);
                }
                i = i + 1;
            },
            Event::Eof => {
                proof {
                    lemma_tracks_no_eof(events@, pos as int, i as int, Seq::empty(), false);
                }
                return Err(ParseError::Truncated);
            },
            Event::Other => {
                proof {
                    lemma_tracks_skip(events@, pos as int, i as int, Seq::empty(), false);
                }
                i = i + 1;
            },
        }
    }
    proof {
        lemma_tracks_no_eof(events@, pos as int, i as int, Seq::empty(), false);
    }
    Err(ParseError::Truncated)
}


pub proof fn lemma_fp_scan_bounds(
    events: Seq<Event>,
    pos: int,
    n: Seq<char>,
    t: Seq<char>,
    rid: Option<Seq<char>>,
)
    ensures
        fp_scan(events, pos, n, t, rid) matches Some(p) ==> pos < p.0 <= events.len(),
    decreases events.len() - pos,
{
    if 0 <= pos < events.len() {
        match events[pos] {
            Event::Start { name, .. } => {
                lemma_any_end_bounds(events, pos + 1);
                let e = any_end(events, pos + 1);
                let v = any_val_acc(events, pos + 1, Seq::empty());
                let r2 = any_ref(events, pos + 1, None);
                if e >= 0 {
                    lemma_fp_scan_bounds(events, e, n, v, r2);
                    lemma_fp_scan_bounds(events, e, v, t, rid);
                    lemma_fp_scan_bounds(events, e, n, t, rid);
                }
            },
            Event::Text { .. } => {
                lemma_fp_scan_bounds(events, pos + 1, n, t, rid);
            },
            Event::Other => {
                lemma_fp_scan_bounds(events, pos + 1, n, t, rid);
            },
            _ => {},
        }
    }
}

/// The view of one gathered parameter: name, type, args suffix,
/// description, brief, and captured cross-reference.
pub type PView = (Seq<char>, Seq<char>, Seq<char>, Seq<char>, Seq<char>, Option<Seq<char>>);

/// The full views of a parameter list.
pub open spec fn fnp_views(ps: Seq<FnParam>) -> Seq<PView> {
    ps.map_values(
        |p: FnParam|
            (p.par_name@, p.par_type@, p.par_args@, p.par_desc@, p.par_brief@, opt_view(
                p.par_refid,
            )),
    )
}

/// What a function member definition gathers: the five texts (declared
/// type, definition, args string, name, brief), the parameter list, and
/// the detail/return/note texts and return-value entries merged from its
/// detailed-description children.
pub type FiState = (
    (Seq<char>, Seq<char>, Seq<char>, Seq<char>, Seq<char>),
    Seq<PView>,
    (Seq<char>, Seq<char>, Seq<char>, Seq<(Seq<char>, Seq<char>)>),
);

/// The walk of one function member definition: recognized text children
/// fill the texts, each `param` child appends one parameter in source
/// order, each detailed description merges its contribution, anything
/// else is consumed without effect, and the member definition's close
/// finishes the document.
pub open spec fn fi_scan(events: Seq<Event>, pos: int, st: FiState) -> Option<(int, FiState)>
    decreases events.len() - pos,
    via fi_scan_dec
{
    if pos < 0 || pos >= events.len() {
        None
    } else {
        match events[pos] {
            Event::Start { name, .. } => if name@ == "param"@ {
                match fp_scan(events, pos + 1, Seq::empty(), Seq::empty(), None) {
                    Some(p) => fi_scan(
                        events,
                        p.0,
                        (st.0, st.1.push(
                            (p.1, p.2, Seq::empty(), Seq::empty(), Seq::empty(), p.3),
                        ), st.2),
                    ),
                    None => None,
                }
            } else if name@ == "detaileddescription"@ {
                match dtl_scan(
                    events,
                    pos + 1,
                    name@,
                    st.1.map_values(|p: PView| p.0),
                    seq![dtl_frame0()],
                    dtl_out0(st.1.map_values(|p: PView| p.3)),
                ) {
                    Some(p) => fi_scan(
                        events,
                        p.0,
                        (st.0, Seq::new(
                            st.1.len(),
                            |j: int|
                                (st.1[j].0, st.1[j].1, st.1[j].2, p.1.4[j], st.1[j].4,
                                st.1[j].5),
                        ), ((st.2).0 + p.1.0, (st.2).1 + p.1.1, (st.2).2 + p.1.2, (st.2).3
                            + p.1.3)),
                    ),
                    None => None,
                }
            } else {
                if text_end(events, pos + 1, name@) < 0 {
                    None
                } else {
                    let e = text_end(events, pos + 1, name@);
                    let v = text_val(events, pos + 1, name@);
                    let t5 = if name@ == "type"@ {
                        (v, (st.0).1, (st.0).2, (st.0).3, (st.0).4)
                    } else if name@ == "definition"@ {
                        ((st.0).0, v, (st.0).2, (st.0).3, (st.0).4)
                    } else if name@ == "argsstring"@ {
                        ((st.0).0, (st.0).1, v, (st.0).3, (st.0).4)
                    } else if name@ == "name"@ || name@ == "compoundname"@ {
                        ((st.0).0, (st.0).1, (st.0).2, v, (st.0).4)
                    } else if name@ == "briefdescription"@ {
                        ((st.0).0, (st.0).1, (st.0).2, (st.0).3, v)
                    } else {
                        st.0
                    };
                    fi_scan(events, e, (t5, st.1, st.2))
                }
            },
            Event::End { name } => if name@ == "memberdef"@ {
                Some((pos + 1, st))
            } else {
                fi_scan(events, pos + 1, st)
            },
            Event::Text { .. } => fi_scan(events, pos + 1, st),
            Event::Other => fi_scan(events, pos + 1, st),
            Event::Eof => None,
        }
    }
}

#[via_fn]
proof fn fi_scan_dec(events: Seq<Event>, pos: int, st: FiState) {
    if 0 <= pos < events.len() {
        match events[pos] {
            Event::Start { name, .. } => {
                lemma_scan_end_bounds(events, pos + 1, seq![name@]);
                lemma_fp_scan_bounds(events, pos + 1, Seq::empty(), Seq::empty(), None);
                lemma_dtl_scan_bounds(
                    events,
                    pos + 1,
                    name@,
                    st.1.map_values(|p: PView| p.0),
                    seq![dtl_frame0()],
                    dtl_out0(st.1.map_values(|p: PView| p.3)),
                );
            },
            _ => {},
        }
    }
}

/// An empty function-member state.
pub open spec fn fi_state0() -> FiState {
    (
        (Seq::empty(), Seq::empty(), Seq::empty(), Seq::empty(), Seq::empty()),
        Seq::empty(),
        (Seq::empty(), Seq::empty(), Seq::empty(), Seq::empty()),
    )
}


proof fn lemma_fi_text_tags(nm: Seq<char>)
    requires
        nm == "type"@ || nm == "definition"@ || nm == "argsstring"@ || nm == "name"@ || nm
            == "compoundname"@ || nm == "briefdescription"@,
    ensures
        nm != "param"@ && nm != "detaileddescription"@,
{
    reveal_strlit("type");
    reveal_strlit("definition");
    reveal_strlit("argsstring");
    reveal_strlit("name");
    reveal_strlit("compoundname");
    reveal_strlit("briefdescription");
    reveal_strlit("param");
    reveal_strlit("detaileddescription");
    assert("type"@.len() == 4);
    assert("definition"@.len() == 10);
    assert("argsstring"@.len() == 10);
    assert("name"@.len() == 4);
    assert("compoundname"@.len() == 12);
    assert("briefdescription"@.len() == 16);
    assert("param"@.len() == 5);
    assert("detaileddescription"@.len() == 19);
}

/// Builds one function document from a function member definition: its
/// signature parts, parameters, descriptions, and the deduplicated,
/// sorted list of structure references its parameters touch, every one of
/// which is registered in the structure collection.
#[verifier::rlimit(100)]
#[verifier::spinoff_prover]
pub fn collect_function_info(
    events: &Vec<Event>,
    pos: usize,
    functions: &mut Vec<FunctionInfo>,
    structures: &mut StructMap,
) -> (r: Result<usize, ParseError>)
    requires
        pos <= events@.len(),
    ensures
        r matches Ok(np) ==> pos < np <= events@.len(),
        map_extended(*old(structures), *final(structures)),
        r is Ok <==> fi_scan(events@, pos as int, fi_state0()) is Some,
        r matches Ok(np) ==> ({
            let q = fi_scan(events@, pos as int, fi_state0());
            let st = (q->Some_0).1;
            let f = final(functions)@.last();
            &&& q is Some
            &&& (q->Some_0).0 == np as int
            &&& f.fn_type@ == (st.0).0
            &&& f.fn_def@ == (st.0).1
            &&& f.fn_argsstring@ == (st.0).2
            &&& f.fn_name@ == (st.0).3
            &&& f.fn_brief@ == (st.0).4
            &&& fnp_views(f.fn_args@) == st.1
            &&& f.fn_detail@ == (st.2).0
            &&& f.fn_returnval@ == (st.2).1
            &&& f.fn_note@ == (st.2).2
            &&& retval_views(f.fn_retvals@) == (st.2).3
        }),
        r matches Ok(np) ==> final(functions)@.len() == old(functions)@.len() + 1
            && final(functions)@.take(old(functions)@.len() as int) == old(functions)@
            && strictly_sorted(final(functions)@.last().fn_refids@) && (forall|j: int|
            0 <= j < final(functions)@.last().fn_refids@.len() ==> final(structures).spec_contains(
                (#[trigger] final(functions)@.last().fn_refids@[j])@,
            )) && final(functions)@.last().fn_defines@.len() == 0 && (forall|k: Seq<char>|
            contains_id(#[trigger] final(functions)@.last().fn_refids@, k) <==> exists|j: int|
                0 <= j < final(functions)@.last().fn_args@.len() && ((
                #[trigger] final(functions)@.last().fn_args@[j]).par_refid matches Some(id) && id@
                    == k)),
        r is Err ==> final(functions)@ == old(functions)@,
        collects_pos_ok(events@, pos as int, "memberdef"@, r),
    decreases events@.len() - pos, 0int,
{
    let mut function = FunctionInfo::new();
    let mut i = pos;
    proof {
        lemma_tracks_init(events@, pos as int, "memberdef"@, true);
        assert(fnp_views(function.fn_args@) =~= Seq::<PView>::empty());
        assert(retval_views(function.fn_retvals@) =~= Seq::<(Seq<char>, Seq<char>)>::empty());
        assert(((function.fn_type@, function.fn_def@, function.fn_argsstring@, function.fn_name@,
        function.fn_brief@), fnp_views(function.fn_args@), (function.fn_detail@,
        function.fn_returnval@, function.fn_note@, retval_views(function.fn_retvals@)))
            =~= fi_state0());
    }
    while i < events.len()
        invariant
            pos <= i <= events@.len(),
            tracks(events@, pos as int, i as int, "memberdef"@, true),
            fi_scan(events@, pos as int, fi_state0()) == fi_scan(
                events@,
                i as int,
                ((function.fn_type@, function.fn_def@, function.fn_argsstring@, function.fn_name@,
                function.fn_brief@), fnp_views(function.fn_args@), (function.fn_detail@,
                function.fn_returnval@, function.fn_note@, retval_views(function.fn_retvals@))),
            ),
            functions@ == old(functions)@,
            map_extended(*old(structures), *structures),
            strictly_sorted(function.fn_refids@),
            forall|j: int|
                0 <= j < function.fn_refids@.len() ==> structures.spec_contains(
                    (#[trigger] function.fn_refids@[j])@,
                ),
            function.fn_defines@.len() == 0,
            forall|k: Seq<char>|
                contains_id(#[trigger] function.fn_refids@, k) <==> exists|j: int|
                    0 <= j < function.fn_args@.len() && ((
                    #[trigger] function.fn_args@[j]).par_refid matches Some(id) && id@ == k),
        decreases events@.len() - i,
    {
        match &events[i] {
            Event::Start { name, attrs } => {
                let ghost nm = name@;
                if str_eq(name.as_str(), "type") {
                    match collect_text(events, i + 1, name.as_str()) {
                        Ok((np, t)) => {
                            proof {
                                assert(consumed_ok(events@, (i + 1) as int, np as int, nm));
                                lemma_tracks_start_consumed(
                                    events@,
                                    pos as int,
                                    i as int,
                                    np as int,
                                    "memberdef"@,
                                    true,
                                    nm,
                                );
                                lemma_fi_text_tags(nm);
                            }
                            function.fn_type = t;
                            i = np;
                        },
                        Err(e) => {
                            proof {
                                lemma_tracks_inner_open(
                                    events@,
                                    pos as int,
                                    i as int,
                                    "memberdef"@,
                                    true,
                                    nm,
                                );
                                if nm == "type"@ || nm == "definition"@ || nm == "argsstring"@
                                    || nm == "name"@ || nm == "compoundname"@ || nm
                                    == "briefdescription"@ {
                                    lemma_fi_text_tags(nm);
                                }
                            }
                            return Err(e);
                        },
                    }
                } else if str_eq(name.as_str(), "definition") {
                    match collect_text(events, i + 1, name.as_str()) {
                        Ok((np, t)) => {
                            proof {
                                assert(consumed_ok(events@, (i + 1) as int, np as int, nm));
                                lemma_tracks_start_consumed(
                                    events@,
                                    pos as int,
                                    i as int,
                                    np as int,
                                    "memberdef"@,
                                    true,
                                    nm,
                                );
                                lemma_fi_text_tags(nm);
                            }
                            function.fn_def = t;
                            i = np;
                        },
                        Err(e) => {
                            proof {
                                lemma_tracks_inner_open(
                                    events@,
                                    pos as int,
                                    i as int,
                                    "memberdef"@,
                                    true,
                                    nm,
                                );
                                if nm == "type"@ || nm == "definition"@ || nm == "argsstring"@
                                    || nm == "name"@ || nm == "compoundname"@ || nm
                                    == "briefdescription"@ {
                                    lemma_fi_text_tags(nm);
                                }
                            }
                            return Err(e);
                        },
                    }
                } else if str_eq(name.as_str(), "argsstring") {
                    match collect_text(events, i + 1, name.as_str()) {
                        Ok((np, t)) => {
                            proof {
                                assert(consumed_ok(events@, (i + 1) as int, np as int, nm));
                                lemma_tracks_start_consumed(
                                    events@,
                                    pos as int,
                                    i as int,
                                    np as int,
                                    "memberdef"@,
                                    true,
                                    nm,
                                );
                                lemma_fi_text_tags(nm);
                            }
                            function.fn_argsstring = t;
                            i = np;
                        },
                        Err(e) => {
                            proof {
                                lemma_tracks_inner_open(
                                    events@,
                                    pos as int,
                                    i as int,
                                    "memberdef"@,
                                    true,
                                    nm,
                                );
                                if nm == "type"@ || nm == "definition"@ || nm == "argsstring"@
                                    || nm == "name"@ || nm == "compoundname"@ || nm
                                    == "briefdescription"@ {
                                    lemma_fi_text_tags(nm);
                                }
                            }
                            return Err(e);
                        },
                    }
                } else if str_eq(name.as_str(), "name") || str_eq(name.as_str(), "compoundname") {
                    match collect_text(events, i + 1, name.as_str()) {
                        Ok((np, t)) => {
                            proof {
                                assert(consumed_ok(events@, (i + 1) as int, np as int, nm));
                                lemma_tracks_start_consumed(
                                    events@,
                                    pos as int,
                                    i as int,
                                    np as int,
                                    "memberdef"@,
                                    true,
                                    nm,
                                );
                                lemma_fi_text_tags(nm);
                            }
                            function.fn_name = t;
                            i = np;
                        },
                        Err(e) => {
                            proof {
                                lemma_tracks_inner_open(
                                    events@,
                                    pos as int,
                                    i as int,
                                    "memberdef"@,
                                    true,
                                    nm,
                                );
                                if nm == "type"@ || nm == "definition"@ || nm == "argsstring"@
                                    || nm == "name"@ || nm == "compoundname"@ || nm
                                    == "briefdescription"@ {
                                    lemma_fi_text_tags(nm);
                                }
                            }
                            return Err(e);
                        },
                    }
                } else if str_eq(name.as_str(), "param") {
                    let ghost mid = *structures;
                    match collect_function_param(events, i + 1, structures) {
                        Ok((np, param)) => {
                            proof {
                                assert(consumed_ok(events@, (i + 1) as int, np as int, nm));
                                lemma_tracks_start_consumed(
                                    events@,
                                    pos as int,
                                    i as int,
                                    np as int,
                                    "memberdef"@,
                                    true,
                                    nm,
                                );
                            }
                            proof {
                                lemma_map_extended_trans(*old(structures), mid, *structures);
                                assert forall|j: int|
                                    0 <= j < function.fn_refids@.len() implies structures
                                    .spec_contains(
                                    (#[trigger] function.fn_refids@[j])@,
                                ) by {
                                    assert(mid.spec_contains(function.fn_refids@[j]@));
                                    assert(structures.spec_get(function.fn_refids@[j]@)
                                        == mid.spec_get(function.fn_refids@[j]@));
                                }
                            }
                            // If the param has a refid then make a note of it so we
                            // can expand structures in the manpage; one reference
                            // per structure is enough, in ascending order.
                            let ghost pre_args = function.fn_args@;
                            let ghost pre_ids = function.fn_refids@;
                            if let Some(rid) = &param.par_refid {
                                insert_refid(&mut function.fn_refids, rid.as_str());
                                proof {
                                    assert forall|j: int|
                                        0 <= j < function.fn_refids@.len() implies structures
                                        .spec_contains(
                                        (#[trigger] function.fn_refids@[j])@,
                                    ) by {
                                        assert(contains_id(
                                            function.fn_refids@,
                                            function.fn_refids@[j]@,
                                        ));
                                    }
                                }
                            }
                            function.fn_args.push(param);
                            proof {
                                assert(fnp_views(function.fn_args@) =~= fnp_views(pre_args).push(
                                    (param.par_name@, param.par_type@, param.par_args@,
                                    param.par_desc@, param.par_brief@, opt_view(param.par_refid)),
                                ));
                                assert(param.par_args@ =~= Seq::<char>::empty());
                                assert(param.par_desc@ =~= Seq::<char>::empty());
                                assert(param.par_brief@ =~= Seq::<char>::empty());
                                assert forall|k: Seq<char>|
                                    contains_id(#[trigger] function.fn_refids@, k) <==> exists|
                                    j: int,
                                |
                                    0 <= j < function.fn_args@.len() && ((
                                    #[trigger] function.fn_args@[j]).par_refid matches Some(id)
                                        && id@ == k) by {
                                    assert(function.fn_args@ == pre_args.push(param));
                                    assert(function.fn_args@[pre_args.len() as int] == param);
                                    if contains_id(function.fn_refids@, k) {
                                        if contains_id(pre_ids, k) {
                                            let j = choose|j: int|
                                                0 <= j < pre_args.len() && ((
                                                #[trigger] pre_args[j]).par_refid matches Some(id)
                                                    && id@ == k);
                                            assert(function.fn_args@[j] == pre_args[j]);
                                        }
                                    }
                                    if exists|j: int|
                                        0 <= j < function.fn_args@.len() && ((
                                        #[trigger] function.fn_args@[j]).par_refid matches Some(
                                            id,
                                        ) && id@ == k) {
                                        let j = choose|j: int|
                                            0 <= j < function.fn_args@.len() && ((
                                            #[trigger] function.fn_args@[j]).par_refid matches Some(
                                                id,
                                            ) && id@ == k);
                                        if j < pre_args.len() {
                                            assert(pre_args[j] == function.fn_args@[j]);
                                            assert(contains_id(pre_ids, k));
                                        }
                                    }
                                }
                            }
                            i = np;
                        },
                        Err(e) => {
                            proof {
                                lemma_tracks_inner_open(
                                    events@,
                                    pos as int,
                                    i as int,
                                    "memberdef"@,
                                    true,
                                    nm,
                                );
                                if nm == "type"@ || nm == "definition"@ || nm == "argsstring"@
                                    || nm == "name"@ || nm == "compoundname"@ || nm
                                    == "briefdescription"@ {
                                    lemma_fi_text_tags(nm);
                                }
                            }
                            return Err(e);
                        },
                    }
                } else if str_eq(name.as_str(), "briefdescription") {
                    match collect_text(events, i + 1, name.as_str()) {
                        Ok((np, t)) => {
                            proof {
                                assert(consumed_ok(events@, (i + 1) as int, np as int, nm));
                                lemma_tracks_start_consumed(
                                    events@,
                                    pos as int,
                                    i as int,
                                    np as int,
                                    "memberdef"@,
                                    true,
                                    nm,
                                );
                                lemma_fi_text_tags(nm);
                            }
                            function.fn_brief = t;
                            i = np;
                        },
                        Err(e) => {
                            proof {
                                lemma_tracks_inner_open(
                                    events@,
                                    pos as int,
                                    i as int,
                                    "memberdef"@,
                                    true,
                                    nm,
                                );
                                if nm == "type"@ || nm == "definition"@ || nm == "argsstring"@
                                    || nm == "name"@ || nm == "compoundname"@ || nm
                                    == "briefdescription"@ {
                                    lemma_fi_text_tags(nm);
                                }
                            }
                            return Err(e);
                        },
                    }
                } else if str_eq(name.as_str(), "detaileddescription") {
                    let ghost pre_fn = function;
                    match collect_detail_bits(events, i + 1, name.as_str(), &mut function) {
                        Ok(np) => {
                            proof {
                                assert(fnp_views(pre_fn.fn_args@).map_values(|p: PView| p.0)
                                    =~= param_names(pre_fn.fn_args@));
                                assert(fnp_views(pre_fn.fn_args@).map_values(|p: PView| p.3)
                                    =~= param_descs(pre_fn.fn_args@));
                                let inner = dtl_scan(
                                    events@,
                                    (i + 1) as int,
                                    "detaileddescription"@,
                                    param_names(pre_fn.fn_args@),
                                    seq![dtl_frame0()],
                                    dtl_out0(param_descs(pre_fn.fn_args@)),
                                );
                                assert(inner is Some);
                                let p = inner->Some_0;
                                assert(fnp_views(function.fn_args@) =~= Seq::new(
                                    fnp_views(pre_fn.fn_args@).len(),
                                    |j: int|
                                        (fnp_views(pre_fn.fn_args@)[j].0, fnp_views(
                                            pre_fn.fn_args@,
                                        )[j].1, fnp_views(pre_fn.fn_args@)[j].2, ((p.1).4)[j],
                                        fnp_views(pre_fn.fn_args@)[j].4, fnp_views(
                                            pre_fn.fn_args@,
                                        )[j].5),
                                ));
                                assert forall|k: Seq<char>|
                                    contains_id(#[trigger] function.fn_refids@, k) <==> exists|
                                    j: int,
                                |
                                    0 <= j < function.fn_args@.len() && ((
                                    #[trigger] function.fn_args@[j]).par_refid matches Some(id)
                                        && id@ == k) by {
                                    assert(function.fn_refids@ == pre_fn.fn_refids@);
                                    if contains_id(pre_fn.fn_refids@, k) {
                                        let j = choose|j: int|
                                            0 <= j < pre_fn.fn_args@.len() && ((
                                            #[trigger] pre_fn.fn_args@[j]).par_refid matches Some(
                                                id,
                                            ) && id@ == k);
                                        assert(function.fn_args@[j].par_refid
                                            == pre_fn.fn_args@[j].par_refid);
                                    }
                                    if exists|j: int|
                                        0 <= j < function.fn_args@.len() && ((
                                        #[trigger] function.fn_args@[j]).par_refid matches Some(
                                            id,
                                        ) && id@ == k) {
                                        let j = choose|j: int|
                                            0 <= j < function.fn_args@.len() && ((
                                            #[trigger] function.fn_args@[j]).par_refid matches Some(
                                                id,
                                            ) && id@ == k);
                                        assert(pre_fn.fn_args@[j].par_refid
                                            == function.fn_args@[j].par_refid);
                                        assert(contains_id(pre_fn.fn_refids@, k));
                                    }
                                }
                                assert(consumed_ok(events@, (i + 1) as int, np as int, nm));
                                lemma_tracks_start_consumed(
                                    events@,
                                    pos as int,
                                    i as int,
                                    np as int,
                                    "memberdef"@,
                                    true,
                                    nm,
                                );
                            }
                            i = np;
                        },
                        Err(e) => {
                            proof {
                                lemma_tracks_inner_open(
                                    events@,
                                    pos as int,
                                    i as int,
                                    "memberdef"@,
                                    true,
                                    nm,
                                );
                                assert(fnp_views(pre_fn.fn_args@).map_values(|p: PView| p.0)
                                    =~= param_names(pre_fn.fn_args@));
                                assert(fnp_views(pre_fn.fn_args@).map_values(|p: PView| p.3)
                                    =~= param_descs(pre_fn.fn_args@));
                            }
                            return Err(e);
                        },
                    }
                } else {
                    // Not used, but still need to consume it
                    match collect_text(events, i + 1, name.as_str()) {
                        Ok((np, _t)) => {
                            proof {
                                assert(consumed_ok(events@, (i + 1) as int, np as int, nm));
                                lemma_tracks_start_consumed(
                                    events@,
                                    pos as int,
                                    i as int,
                                    np as int,
                                    "memberdef"@,
                                    true,
                                    nm,
                                );
                            }
                            i = np;
                        },
                        Err(e) => {
                            proof {
                                lemma_tracks_inner_open(
                                    events@,
                                    pos as int,
                                    i as int,
                                    "memberdef"@,
                                    true,
                                    nm,
                                );
                                if nm == "type"@ || nm == "definition"@ || nm == "argsstring"@
                                    || nm == "name"@ || nm == "compoundname"@ || nm
                                    == "briefdescription"@ {
                                    lemma_fi_text_tags(nm);
                                }
                            }
                            return Err(e);
                        },
                    }
                }
            },
            Event::Text { .. } => {
                proof {
                    lemma_tracks_skip(events@, pos as int, i as int, "memberdef"@, true);
                }
                i = i + 1;
            },
            Event::End { name } => {
                if str_eq(name.as_str(), "memberdef") {
                    proof {
                        lemma_tracks_end_returns(events@, pos as int, i as int, "memberdef"@, true);
                    }
                    let ghost pre = functions@;
                    functions.push(function);
                    proof {
                        assert(functions@.take(pre.len() as int) =~= pre);
                        assert(functions@.last() == functions@[pre.len() as int]);
                    }
                    return Ok(i + 1);
                }
                proof {
                    lemma_tracks_end_skipped(events@, pos as int, i as int, "memberdef"@, name@);
                }
                i = i + 1;
            },
            Event::Eof => {
                proof {
                    lemma_tracks_no_eof(events@, pos as int, i as int, "memberdef"@, true);
                }
                return Err(ParseError::Truncated);
            },
            Event::Other => {
                proof {
                    lemma_tracks_skip(events@, pos as int, i as int, "memberdef"@, true);
                }
                i = i + 1;
            },
        }
    }
    proof {
        lemma_tracks_no_eof(events@, pos as int, i as int, "memberdef"@, true);
    }
    Err(ParseError::Truncated)
}

/// Collects one preprocessor-style symbolic constant: name, initializer,
/// brief and detailed description.
pub fn collect_define(events: &Vec<Event>, pos: usize) -> (r: Result<
    (usize, HashDefine),
    ParseError,
>)
    requires
        pos <= events@.len(),
    ensures
        r matches Ok(p) ==> pos <= p.0 <= events@.len(),
        collects_ok(events@, pos as int, "memberdef"@, r),
        r is Ok <==> define_scan(
            events@,
            pos as int,
            Seq::empty(),
            Seq::empty(),
            Seq::empty(),
            Seq::empty(),
        ) is Some,
        r matches Ok(p) ==> define_scan(
            events@,
            pos as int,
            Seq::empty(),
            Seq::empty(),
            Seq::empty(),
            Seq::empty(),
        ) == Some((p.0 as int, p.1.hd_name@, p.1.hd_init@, p.1.hd_brief@, p.1.hd_desc@)),
    decreases events@.len() - pos, 0int,
{
    let mut hd_name = String::new();
    let mut hd_init = String::new();
    let mut hd_brief = String::new();
    let mut hd_desc = String::new();
    let mut i = pos;
    proof {
        lemma_tracks_init(events@, pos as int, "memberdef"@, true);
    }
    while i < events.len()
        invariant
            pos <= i <= events@.len(),
            tracks(events@, pos as int, i as int, "memberdef"@, true),
            define_scan(
                events@,
                pos as int,
                Seq::empty(),
                Seq::empty(),
                Seq::empty(),
                Seq::empty(),
            ) == define_scan(events@, i as int, hd_name@, hd_init@, hd_brief@, hd_desc@),
        decreases events@.len() - i,
    {
        match &events[i] {
            Event::Start { name, .. } => {
                let ghost nm = name@;
                if str_eq(name.as_str(), "name") || str_eq(name.as_str(), "initializer") || str_eq(
                    name.as_str(),
                    "briefdescription",
                ) || str_eq(name.as_str(), "detaileddescription") {
                    match collect_text(events, i + 1, name.as_str()) {
                        Ok((np, t)) => {
                            proof {
                                assert(consumed_ok(events@, (i + 1) as int, np as int, nm));
                                lemma_tracks_start_consumed(
                                    events@,
                                    pos as int,
                                    i as int,
                                    np as int,
                                    "memberdef"@,
                                    true,
                                    nm,
                                );
                            }
                            if str_eq(name.as_str(), "name") {
                                hd_name = t;
                            } else if str_eq(name.as_str(), "initializer") {
                                hd_init = t;
                            } else if str_eq(name.as_str(), "briefdescription") {
                                hd_brief = t;
                            } else {
                                hd_desc = t;
                            }
                            i = np;
                        },
                        Err(e) => {
                            proof {
                                lemma_tracks_inner_open(
                                    events@,
                                    pos as int,
                                    i as int,
                                    "memberdef"@,
                                    true,
                                    nm,
                                );
                            }
                            return Err(e);
                        },
                    }
                } else {
                    proof {
                        lemma_tracks_start_skipped(
                            events@,
                            pos as int,
                            i as int,
                            "memberdef"@,
                            true,
                            nm,
                        );
                    }
                    i = i + 1;
                }
            },
            Event::End { name } => {
                if str_eq(name.as_str(), "memberdef") {
                    proof {
                        lemma_tracks_end_returns(events@, pos as int, i as int, "memberdef"@, true);
                    }
                    return Ok((i + 1, HashDefine { hd_name, hd_init, hd_brief, hd_desc }));
                }
                proof {
                    lemma_tracks_end_skipped(events@, pos as int, i as int, "memberdef"@, name@);
                }
                i = i + 1;
            },
            Event::Text { .. } => {
                proof {
                    lemma_tracks_skip(events@, pos as int, i as int, "memberdef"@, true);
                }
                i = i + 1;
            },
            Event::Eof => {
                proof {
                    lemma_tracks_no_eof(events@, pos as int, i as int, "memberdef"@, true);
                }
                return Ok((i, HashDefine { hd_name, hd_init, hd_brief, hd_desc }));
            },
            Event::Other => {
                proof {
                    lemma_tracks_skip(events@, pos as int, i as int, "memberdef"@, true);
                }
                i = i + 1;
            },
        }
    }
    proof {
        lemma_tracks_no_eof(events@, pos as int, i as int, "memberdef"@, true);
    }
    Err(ParseError::Truncated)
}

/// Read a single structure member (or enum value): name, type, trailing
/// args suffix, brief and detailed description.
pub fn read_structure_member(events: &Vec<Event>, pos: usize) -> (r: Result<
    (usize, FnParam),
    ParseError,
>)
    requires
        pos <= events@.len(),
    ensures
        r matches Ok(p) ==> pos < p.0 <= events@.len() && p.1.par_refid is None,
        collects_any_ok(events@, pos as int, r),
        r is Ok <==> member_scan(
            events@,
            pos as int,
            Seq::empty(),
            Seq::empty(),
            Seq::empty(),
            Seq::empty(),
            Seq::empty(),
        ) is Some,
        r matches Ok(p) ==> member_scan(
            events@,
            pos as int,
            Seq::empty(),
            Seq::empty(),
            Seq::empty(),
            Seq::empty(),
            Seq::empty(),
        ) == Some(
            (p.0 as int, p.1.par_name@, p.1.par_type@, p.1.par_args@, p.1.par_desc@,
            p.1.par_brief@),
        ),
    decreases events@.len() - pos, 0int,
{
    let mut par_name = String::new();
    let mut par_type = String::new();
    let mut par_desc = String::new();
    let mut par_brief = String::new();
    let mut par_args = String::new();
    let mut i = pos;
    proof {
        lemma_tracks_init(events@, pos as int, Seq::empty(), false);
    }
    while i < events.len()
        invariant
            pos <= i <= events@.len(),
            tracks(events@, pos as int, i as int, Seq::empty(), false),
            member_scan(
                events@,
                pos as int,
                Seq::empty(),
                Seq::empty(),
                Seq::empty(),
                Seq::empty(),
                Seq::empty(),
            ) == member_scan(
                events@,
                i as int,
                par_name@,
                par_type@,
                par_args@,
                par_desc@,
                par_brief@,
            ),
        decreases events@.len() - i,
    {
        match &events[i] {
            Event::Start { name, .. } => {
                let ghost nm = name@;
                match collect_text(events, i + 1, name.as_str()) {
                    Ok((np, t)) => {
                        proof {
                            assert(consumed_ok(events@, (i + 1) as int, np as int, nm));
                            lemma_tracks_start_consumed(
                                events@,
                                pos as int,
                                i as int,
                                np as int,
                                Seq::empty(),
                                false,
                                nm,
                            );
                        }
                        if str_eq(name.as_str(), "name") {
                            par_name = t;
                        } else if str_eq(name.as_str(), "type") {
                            par_type = t;
                        } else if str_eq(name.as_str(), "argsstring") {
                            par_args = t;
                        } else if str_eq(name.as_str(), "detaileddescription") {
                            par_desc = trim(t.as_str());
                        } else if str_eq(name.as_str(), "briefdescription") {
                            par_brief = trim(t.as_str());
                        }
                        i = np;
                    },
                    Err(e) => {
                        proof {
                            lemma_tracks_inner_open(
                                events@,
                                pos as int,
                                i as int,
                                Seq::empty(),
                                false,
                                nm,
                            );
                        }
                        return Err(e);
                    },
                }
            },
            Event::End { .. } => {
                proof {
                    lemma_tracks_end_returns(events@, pos as int, i as int, Seq::empty(), false);
                }
                return Ok(
                    (
                        i + 1,
                        FnParam { par_name, par_type, par_desc, par_args, par_brief, par_refid: None },
                    ),
                );
            },
            Event::Text { .. } => {
                proof {
                    lemma_tracks_skip(events@, pos as int, i as int, Seq::empty(), false);
                }
                i = i + 1;
            },
            Event::Eof => {
                proof {
                    lemma_tracks_no_eof(events@, pos as int, i as int, Seq::empty(), false);
                }
                return Err(ParseError::Truncated);
            },
            Event::Other => {
                proof {
                    lemma_tracks_skip(events@, pos as int, i as int, Seq::empty(), false);
                }
                i = i + 1;
            },
        }
    }
    proof {
        lemma_tracks_no_eof(events@, pos as int, i as int, Seq::empty(), false);
    }
    Err(ParseError::Truncated)
}

/// Collects a whole enum (or, in an auxiliary source, a structure body
/// read the same way): name, descriptions and ordered members.
pub fn collect_enum(events: &Vec<Event>, pos: usize, str_type: StructureType) -> (r: Result<
    (usize, StructureInfo),
    ParseError,
>)
    requires
        pos <= events@.len(),
    ensures
        r matches Ok(p) ==> pos <= p.0 <= events@.len() && p.1.str_type == str_type,
        collects_any_ok(events@, pos as int, r),
        r is Ok <==> enum_scan(
            events@,
            pos as int,
            Seq::empty(),
            Seq::empty(),
            Seq::empty(),
            Seq::empty(),
        ) is Some,
        r matches Ok(p) ==> enum_scan(
            events@,
            pos as int,
            Seq::empty(),
            Seq::empty(),
            Seq::empty(),
            Seq::empty(),
        ) == Some(
            (p.0 as int, p.1.str_name@, p.1.str_brief@, p.1.str_description@, member_views(
                p.1.str_members@,
            )),
        ),
    decreases events@.len() - pos, 0int,
{
    let mut sinfo = StructureInfo::new();
    sinfo.str_type = str_type;
    let mut i = pos;
    proof {
        lemma_tracks_init(events@, pos as int, Seq::empty(), false);
        assert(member_views(sinfo.str_members@) =~= Seq::<
            (Seq<char>, Seq<char>, Seq<char>, Seq<char>, Seq<char>),
        >::empty());
    }
    while i < events.len()
        invariant
            pos <= i <= events@.len(),
            sinfo.str_type == str_type,
            tracks(events@, pos as int, i as int, Seq::empty(), false),
            enum_scan(
                events@,
                pos as int,
                Seq::empty(),
                Seq::empty(),
                Seq::empty(),
                Seq::empty(),
            ) == enum_scan(
                events@,
                i as int,
                sinfo.str_name@,
                sinfo.str_brief@,
                sinfo.str_description@,
                member_views(sinfo.str_members@),
            ),
        decreases events@.len() - i,
    {
        match &events[i] {
            Event::Start { name, .. } => {
                let ghost nm = name@;
                if str_eq(name.as_str(), "enumvalue") {
                    match read_structure_member(events, i + 1) {
                        Ok((np, m)) => {
                            proof {
                                assert(consumed_ok(events@, (i + 1) as int, np as int, nm));
                                lemma_tracks_start_consumed(
                                    events@,
                                    pos as int,
                                    i as int,
                                    np as int,
                                    Seq::empty(),
                                    false,
                                    nm,
                                );
                                assert(member_views(sinfo.str_members@.push(m)) =~= member_views(
                                    sinfo.str_members@,
                                ).push(
                                    (m.par_name@, m.par_type@, m.par_args@, m.par_desc@,
                                    m.par_brief@),
                                ));
                            }
                            sinfo.str_members.push(m);
                            i = np;
                        },
                        Err(e) => {
                            proof {
                                lemma_tracks_inner_open(
                                    events@,
                                    pos as int,
                                    i as int,
                                    Seq::empty(),
                                    false,
                                    nm,
                                );
                            }
                            return Err(e);
                        },
                    }
                } else {
                    match collect_text(events, i + 1, name.as_str()) {
                        Ok((np, t)) => {
                            proof {
                                assert(consumed_ok(events@, (i + 1) as int, np as int, nm));
                                lemma_tracks_start_consumed(
                                    events@,
                                    pos as int,
                                    i as int,
                                    np as int,
                                    Seq::empty(),
                                    false,
                                    nm,
                                );
                            }
                            if str_eq(name.as_str(), "name") {
                                sinfo.str_name = t;
                            } else if str_eq(name.as_str(), "briefdescription") {
                                sinfo.str_brief = t;
                            } else if str_eq(name.as_str(), "detaileddescription") {
                                sinfo.str_description = t;
                            }
                            i = np;
                        },
                        Err(e) => {
                            proof {
                                lemma_tracks_inner_open(
                                    events@,
                                    pos as int,
                                    i as int,
                                    Seq::empty(),
                                    false,
                                    nm,
                                );
                            }
                            return Err(e);
                        },
                    }
                }
            },
            Event::End { .. } => {
                proof {
                    lemma_tracks_end_returns(events@, pos as int, i as int, Seq::empty(), false);
                }
                return Ok((i + 1, sinfo));
            },
            Event::Text { .. } => {
                proof {
                    lemma_tracks_skip(events@, pos as int, i as int, Seq::empty(), false);
                }
                i = i + 1;
            },
            Event::Eof => {
                proof {
                    lemma_tracks_no_eof(events@, pos as int, i as int, Seq::empty(), false);
                }
                return Ok((i, sinfo));
            },
            Event::Other => {
                proof {
                    lemma_tracks_skip(events@, pos as int, i as int, Seq::empty(), false);
                }
                i = i + 1;
            },
        }
    }
    proof {
        lemma_tracks_no_eof(events@, pos as int, i as int, Seq::empty(), false);
    }
    Err(ParseError::Truncated)
}


/// What the structure reader gathers from an auxiliary source's compound
/// definition: name and descriptions from the recognized children, one
/// member per member definition in source order, up to the compound's
/// close; an unrecognized child is stepped over without being consumed.
pub open spec fn structure_scan(
    events: Seq<Event>,
    pos: int,
    nm: Seq<char>,
    brief: Seq<char>,
    desc: Seq<char>,
    ms: Seq<(Seq<char>, Seq<char>, Seq<char>, Seq<char>, Seq<char>)>,
) -> Option<
    (int, Seq<char>, Seq<char>, Seq<char>, Seq<(Seq<char>, Seq<char>, Seq<char>, Seq<char>, Seq<char>)>),
>
    decreases events.len() - pos,
    via structure_scan_dec
{
    if pos < 0 || pos >= events.len() {
        None
    } else {
        match events[pos] {
            Event::Start { name, .. } => if name@ == "memberdef"@ {
                match member_scan(
                    events,
                    pos + 1,
                    Seq::empty(),
                    Seq::empty(),
                    Seq::empty(),
                    Seq::empty(),
                    Seq::empty(),
                ) {
                    Some(m) => structure_scan(
                        events,
                        m.0,
                        nm,
                        brief,
                        desc,
                        ms.push((m.1, m.2, m.3, m.4, m.5)),
                    ),
                    None => None,
                }
            } else if name@ == "compoundname"@ || name@ == "briefdescription"@ || name@
                == "includes"@ || name@ == "detaileddescription"@ {
                if text_end(events, pos + 1, name@) < 0 {
                    None
                } else {
                    let e = text_end(events, pos + 1, name@);
                    let v = text_val(events, pos + 1, name@);
                    if name@ == "compoundname"@ {
                        structure_scan(events, e, v, brief, desc, ms)
                    } else if name@ == "briefdescription"@ {
                        structure_scan(events, e, nm, v, desc, ms)
                    } else if name@ == "detaileddescription"@ {
                        structure_scan(events, e, nm, brief, v, ms)
                    } else {
                        structure_scan(events, e, nm, brief, desc, ms)
                    }
                }
            } else {
                structure_scan(events, pos + 1, nm, brief, desc, ms)
            },
            Event::End { name } => if name@ == "compounddef"@ {
                Some((pos + 1, nm, brief, desc, ms))
            } else {
                structure_scan(events, pos + 1, nm, brief, desc, ms)
            },
            Event::Text { .. } => structure_scan(events, pos + 1, nm, brief, desc, ms),
            Event::Other => structure_scan(events, pos + 1, nm, brief, desc, ms),
            Event::Eof => None,
        }
    }
}

#[via_fn]
proof fn structure_scan_dec(
    events: Seq<Event>,
    pos: int,
    nm: Seq<char>,
    brief: Seq<char>,
    desc: Seq<char>,
    ms: Seq<(Seq<char>, Seq<char>, Seq<char>, Seq<char>, Seq<char>)>,
) {
    if 0 <= pos < events.len() {
        match events[pos] {
            Event::Start { name, .. } => {
                lemma_scan_end_bounds(events, pos + 1, seq![name@]);
                lemma_member_scan_bounds(
                    events,
                    pos + 1,
                    Seq::empty(),
                    Seq::empty(),
                    Seq::empty(),
                    Seq::empty(),
                    Seq::empty(),
                );
            },
            _ => {},
        }
    }
}

/// Found the point in an auxiliary source where the structure definition
/// is: reads its name, descriptions and members up to the compound's
/// close.
pub fn read_structure(events: &Vec<Event>, pos: usize, str_type: StructureType) -> (r: Result<
    (usize, StructureInfo),
    ParseError,
>)
    requires
        pos <= events@.len(),
    ensures
        r matches Ok(p) ==> pos < p.0 <= events@.len() && p.1.str_type == str_type,
        collects_ok(events@, pos as int, "compounddef"@, r),
        r is Ok <==> structure_scan(
            events@,
            pos as int,
            Seq::empty(),
            Seq::empty(),
            Seq::empty(),
            Seq::empty(),
        ) is Some,
        r matches Ok(p) ==> structure_scan(
            events@,
            pos as int,
            Seq::empty(),
            Seq::empty(),
            Seq::empty(),
            Seq::empty(),
        ) == Some(
            (p.0 as int, p.1.str_name@, p.1.str_brief@, p.1.str_description@, member_views(
                p.1.str_members@,
            )),
        ),
    decreases events@.len() - pos, 0int,
{
    let mut sinfo = StructureInfo::new();
    sinfo.str_type = str_type;
    let mut i = pos;
    proof {
        lemma_tracks_init(events@, pos as int, "compounddef"@, true);
        assert(member_views(sinfo.str_members@) =~= Seq::<
            (Seq<char>, Seq<char>, Seq<char>, Seq<char>, Seq<char>),
        >::empty());
    }
    while i < events.len()
        invariant
            pos <= i <= events@.len(),
            sinfo.str_type == str_type,
            tracks(events@, pos as int, i as int, "compounddef"@, true),
            structure_scan(
                events@,
                pos as int,
                Seq::empty(),
                Seq::empty(),
                Seq::empty(),
                Seq::empty(),
            ) == structure_scan(
                events@,
                i as int,
                sinfo.str_name@,
                sinfo.str_brief@,
                sinfo.str_description@,
                member_views(sinfo.str_members@),
            ),
        decreases events@.len() - i,
    {
        match &events[i] {
            Event::Start { name, .. } => {
                let ghost nm = name@;
                if str_eq(name.as_str(), "memberdef") {
                    match read_structure_member(events, i + 1) {
                        Ok((np, m)) => {
                            proof {
                                assert(consumed_ok(events@, (i + 1) as int, np as int, nm));
                                lemma_tracks_start_consumed(
                                    events@,
                                    pos as int,
                                    i as int,
                                    np as int,
                                    "compounddef"@,
                                    true,
                                    nm,
                                );
                                assert(member_views(sinfo.str_members@.push(m)) =~= member_views(
                                    sinfo.str_members@,
                                ).push(
                                    (m.par_name@, m.par_type@, m.par_args@, m.par_desc@,
                                    m.par_brief@),
                                ));
                            }
                            sinfo.str_members.push(m);
                            i = np;
                        },
                        Err(e) => {
                            proof {
                                lemma_tracks_inner_open(
                                    events@,
                                    pos as int,
                                    i as int,
                                    "compounddef"@,
                                    true,
                                    nm,
                                );
                            }
                            return Err(e);
                        },
                    }
                } else if str_eq(name.as_str(), "compoundname") || str_eq(
                    name.as_str(),
                    "briefdescription",
                ) || str_eq(name.as_str(), "includes") || str_eq(
                    name.as_str(),
                    "detaileddescription",
                ) {
                    match collect_text(events, i + 1, name.as_str()) {
                        Ok((np, t)) => {
                            proof {
                                assert(consumed_ok(events@, (i + 1) as int, np as int, nm));
                                lemma_tracks_start_consumed(
                                    events@,
                                    pos as int,
                                    i as int,
                                    np as int,
                                    "compounddef"@,
                                    true,
                                    nm,
                                );
                            }
                            if str_eq(name.as_str(), "compoundname") {
                                sinfo.str_name = t;
                            } else if str_eq(name.as_str(), "briefdescription") {
                                sinfo.str_brief = t;
                            } else if str_eq(name.as_str(), "detaileddescription") {
                                sinfo.str_description = t;
                            }
                            i = np;
                        },
                        Err(e) => {
                            proof {
                                lemma_tracks_inner_open(
                                    events@,
                                    pos as int,
                                    i as int,
                                    "compounddef"@,
                                    true,
                                    nm,
                                );
                            }
                            return Err(e);
                        },
                    }
                } else {
                    proof {
                        lemma_tracks_start_skipped(
                            events@,
                            pos as int,
                            i as int,
                            "compounddef"@,
                            true,
                            nm,
                        );
                    }
                    i = i + 1;
                }
            },
            Event::End { name } => {
                if str_eq(name.as_str(), "compounddef") {
                    proof {
                        lemma_tracks_end_returns(
                            events@,
                            pos as int,
                            i as int,
                            "compounddef"@,
                            true,
                        );
                    }
                    return Ok((i + 1, sinfo));
                }
                proof {
                    lemma_tracks_end_skipped(events@, pos as int, i as int, "compounddef"@, name@);
                }
                i = i + 1;
            },
            Event::Text { .. } => {
                proof {
                    lemma_tracks_skip(events@, pos as int, i as int, "compounddef"@, true);
                }
                i = i + 1;
            },
            Event::Eof => {
                proof {
                    lemma_tracks_no_eof(events@, pos as int, i as int, "compounddef"@, true);
                }
                return Err(ParseError::Truncated);
            },
            Event::Other => {
                proof {
                    lemma_tracks_skip(events@, pos as int, i as int, "compounddef"@, true);
                }
                i = i + 1;
            },
        }
    }
    proof {
        lemma_tracks_no_eof(events@, pos as int, i as int, "compounddef"@, true);
    }
    Err(ParseError::Truncated)
}


pub proof fn lemma_structure_scan_bounds(
    events: Seq<Event>,
    pos: int,
    nm: Seq<char>,
    brief: Seq<char>,
    desc: Seq<char>,
    ms: Seq<(Seq<char>, Seq<char>, Seq<char>, Seq<char>, Seq<char>)>,
)
    ensures
        structure_scan(events, pos, nm, brief, desc, ms) matches Some(p) ==> pos < p.0
            <= events.len(),
    decreases events.len() - pos,
{
    if 0 <= pos < events.len() {
        match events[pos] {
            Event::Start { name, .. } => {
                lemma_scan_end_bounds(events, pos + 1, seq![name@]);
                lemma_member_scan_bounds(
                    events,
                    pos + 1,
                    Seq::empty(),
                    Seq::empty(),
                    Seq::empty(),
                    Seq::empty(),
                    Seq::empty(),
                );
                match member_scan(
                    events,
                    pos + 1,
                    Seq::empty(),
                    Seq::empty(),
                    Seq::empty(),
                    Seq::empty(),
                    Seq::empty(),
                ) {
                    Some(m) => {
                        lemma_structure_scan_bounds(
                            events,
                            m.0,
                            nm,
                            brief,
                            desc,
                            ms.push((m.1, m.2, m.3, m.4, m.5)),
                        );
                    },
                    None => {},
                }
                let e = text_end(events, pos + 1, name@);
                let v = text_val(events, pos + 1, name@);
                if e >= 0 {
                    lemma_structure_scan_bounds(events, e, v, brief, desc, ms);
                    lemma_structure_scan_bounds(events, e, nm, v, desc, ms);
                    lemma_structure_scan_bounds(events, e, nm, brief, v, ms);
                    lemma_structure_scan_bounds(events, e, nm, brief, desc, ms);
                }
                lemma_structure_scan_bounds(events, pos + 1, nm, brief, desc, ms);
            },
            Event::End { name } => {
                lemma_structure_scan_bounds(events, pos + 1, nm, brief, desc, ms);
            },
            Event::Text { .. } => {
                lemma_structure_scan_bounds(events, pos + 1, nm, brief, desc, ms);
            },
            Event::Other => {
                lemma_structure_scan_bounds(events, pos + 1, nm, brief, desc, ms);
            },
            Event::Eof => {},
        }
    }
}

/// What one auxiliary source yields: the identifier under which the
/// structure is filed, taken from the compound definition's `id`
/// attribute, and the structure's parsed body; descriptions met outside
/// any compound definition land on the current state.
pub open spec fn rsf_scan(
    events: Seq<Event>,
    pos: int,
    rid: Seq<char>,
    nm: Seq<char>,
    brief: Seq<char>,
    desc: Seq<char>,
    ms: Seq<(Seq<char>, Seq<char>, Seq<char>, Seq<char>, Seq<char>)>,
) -> Option<
    (Seq<char>, Seq<char>, Seq<char>, Seq<char>, Seq<(Seq<char>, Seq<char>, Seq<char>, Seq<char>, Seq<char>)>),
>
    decreases events.len() - pos,
    via rsf_scan_dec
{
    if pos < 0 || pos >= events.len() {
        None
    } else {
        match events[pos] {
            Event::Start { name, attrs } => if name@ == "compounddef"@ {
                match structure_scan(
                    events,
                    pos + 1,
                    Seq::empty(),
                    Seq::empty(),
                    Seq::empty(),
                    Seq::empty(),
                ) {
                    Some(st) => rsf_scan(
                        events,
                        st.0,
                        attr_value(attrs@, "id"@),
                        st.1,
                        st.2,
                        st.3,
                        st.4,
                    ),
                    None => None,
                }
            } else if name@ == "briefdescription"@ || name@ == "detaileddescription"@ {
                if text_end(events, pos + 1, name@) < 0 {
                    None
                } else {
                    let e = text_end(events, pos + 1, name@);
                    let v = text_val(events, pos + 1, name@);
                    if name@ == "briefdescription"@ {
                        rsf_scan(events, e, rid, nm, v, desc, ms)
                    } else {
                        rsf_scan(events, e, rid, nm, brief, v, ms)
                    }
                }
            } else {
                rsf_scan(events, pos + 1, rid, nm, brief, desc, ms)
            },
            Event::End { .. } => rsf_scan(events, pos + 1, rid, nm, brief, desc, ms),
            Event::Text { .. } => rsf_scan(events, pos + 1, rid, nm, brief, desc, ms),
            Event::Other => rsf_scan(events, pos + 1, rid, nm, brief, desc, ms),
            Event::Eof => Some((rid, nm, brief, desc, ms)),
        }
    }
}

#[via_fn]
proof fn rsf_scan_dec(
    events: Seq<Event>,
    pos: int,
    rid: Seq<char>,
    nm: Seq<char>,
    brief: Seq<char>,
    desc: Seq<char>,
    ms: Seq<(Seq<char>, Seq<char>, Seq<char>, Seq<char>, Seq<char>)>,
) {
    if 0 <= pos < events.len() {
        match events[pos] {
            Event::Start { name, .. } => {
                lemma_scan_end_bounds(events, pos + 1, seq![name@]);
                lemma_structure_scan_bounds(
                    events,
                    pos + 1,
                    Seq::empty(),
                    Seq::empty(),
                    Seq::empty(),
                    Seq::empty(),
                );
            },
            _ => {},
        }
    }
}

/// Read a single structure from its own event sequence: the identifier
/// under which it is filed, taken from the compound definition, and its
/// full body.
pub fn read_structure_file(events: &Vec<Event>) -> (r: Result<(String, StructureInfo), ParseError>)
    ensures
        r matches Ok(p) ==> p.1.str_type == StructureType::Struct,
        wf_rem(events@, 0, Seq::empty()) ==> r is Ok,
        r is Ok <==> rsf_scan(
            events@,
            0,
            Seq::empty(),
            Seq::empty(),
            Seq::empty(),
            Seq::empty(),
            Seq::empty(),
        ) is Some,
        r matches Ok(p) ==> rsf_scan(
            events@,
            0,
            Seq::empty(),
            Seq::empty(),
            Seq::empty(),
            Seq::empty(),
            Seq::empty(),
        ) == Some(
            (p.0@, p.1.str_name@, p.1.str_brief@, p.1.str_description@, member_views(
                p.1.str_members@,
            )),
        ),
{
    let mut sinfo = StructureInfo::new();
    sinfo.str_type = StructureType::Struct;
    let mut refid = String::new();
    let mut i: usize = 0;
    proof {
        if wf_rem(events@, 0, Seq::empty()) {
            assert(exists|st: Seq<Seq<char>>| #[trigger] wf_rem(events@, 0, st));
        }
        assert(member_views(sinfo.str_members@) =~= Seq::<
            (Seq<char>, Seq<char>, Seq<char>, Seq<char>, Seq<char>),
        >::empty());
    }
    while i < events.len()
        invariant
            i <= events@.len(),
            sinfo.str_type == StructureType::Struct,
            wf_rem(events@, 0, Seq::empty()) ==> exists|st: Seq<Seq<char>>|
                wf_rem(events@, i as int, st),
            rsf_scan(
                events@,
                0,
                Seq::empty(),
                Seq::empty(),
                Seq::empty(),
                Seq::empty(),
                Seq::empty(),
            ) == rsf_scan(
                events@,
                i as int,
                refid@,
                sinfo.str_name@,
                sinfo.str_brief@,
                sinfo.str_description@,
                member_views(sinfo.str_members@),
            ),
        decreases events@.len() - i,
    {
        match &events[i] {
            Event::Start { name, attrs } => {
                let ghost nm = name@;
                if str_eq(name.as_str(), "compounddef") {
                    match read_structure(events, i + 1, StructureType::Struct) {
                        Ok((np, s)) => {
                            proof {
                                if wf_rem(events@, 0, Seq::empty()) {
                                    let st = choose|st: Seq<Seq<char>>| wf_rem(events@, i as int, st);
                                    assert(wf_rem(events@, (i + 1) as int, st.push(nm)));
                                    assert(st.push(nm).len() >= 1 && st.push(nm).last() == nm);
                                    assert(st.push(nm).drop_last() =~= st);
                                    let ext = choose|ext: Seq<Seq<char>>|
                                        wf_rem(events@, np as int, st.push(nm).drop_last() + ext);
                                    assert(wf_rem(events@, np as int, st + ext));
                                    assert(exists|st2: Seq<Seq<char>>| #[trigger] wf_rem(events@, np as int, st2));
                                }
                            }
                            sinfo = s;
                            refid = get_attr(attrs, "id");
                            i = np;
                        },
                        Err(e) => {
                            proof {
                                if wf_rem(events@, 0, Seq::empty()) {
                                    let st = choose|st: Seq<Seq<char>>| wf_rem(events@, i as int, st);
                                    assert(wf_rem(events@, (i + 1) as int, st.push(nm)));
                                    assert(st.push(nm).len() >= 1 && st.push(nm).last() == nm);
                                    assert(false);
                                }
                            }
                            return Err(e);
                        },
                    }
                } else if str_eq(name.as_str(), "briefdescription") || str_eq(
                    name.as_str(),
                    "detaileddescription",
                ) {
                    match collect_text(events, i + 1, name.as_str()) {
                        Ok((np, t)) => {
                            proof {
                                if wf_rem(events@, 0, Seq::empty()) {
                                    let st = choose|st: Seq<Seq<char>>| wf_rem(events@, i as int, st);
                                    assert(wf_rem(events@, (i + 1) as int, st.push(nm)));
                                    assert(st.push(nm).len() >= 1 && st.push(nm).last() == nm);
                                    assert(st.push(nm).drop_last() =~= st);
                                    let ext = choose|ext: Seq<Seq<char>>|
                                        wf_rem(events@, np as int, st.push(nm).drop_last() + ext);
                                    assert(wf_rem(events@, np as int, st + ext));
                                    assert(exists|st2: Seq<Seq<char>>| #[trigger] wf_rem(events@, np as int, st2));
                                }
                            }
                            if str_eq(name.as_str(), "briefdescription") {
                                sinfo.str_brief = t;
                            } else {
                                sinfo.str_description = t;
                            }
                            i = np;
                        },
                        Err(e) => {
                            proof {
                                if wf_rem(events@, 0, Seq::empty()) {
                                    let st = choose|st: Seq<Seq<char>>| wf_rem(events@, i as int, st);
                                    assert(wf_rem(events@, (i + 1) as int, st.push(nm)));
                                    assert(st.push(nm).len() >= 1 && st.push(nm).last() == nm);
                                    assert(false);
                                }
                            }
                            return Err(e);
                        },
                    }
                } else {
                    proof {
                        if wf_rem(events@, 0, Seq::empty()) {
                            let st = choose|st: Seq<Seq<char>>| wf_rem(events@, i as int, st);
                            assert(wf_rem(events@, (i + 1) as int, st.push(nm)));
                            assert(exists|st2: Seq<Seq<char>>|
                                #[trigger] wf_rem(events@, (i + 1) as int, st2));
                        }
                    }
                    i = i + 1;
                }
            },
            Event::End { .. } => {
                proof {
                    if wf_rem(events@, 0, Seq::empty()) {
                        let st = choose|st: Seq<Seq<char>>| wf_rem(events@, i as int, st);
                        assert(wf_rem(events@, (i + 1) as int, st.drop_last()));
                        assert(exists|st2: Seq<Seq<char>>|
                            #[trigger] wf_rem(events@, (i + 1) as int, st2));
                    }
                }
                i = i + 1;
            },
            Event::Text { .. } => {
                proof {
                    if wf_rem(events@, 0, Seq::empty()) {
                        let st = choose|st: Seq<Seq<char>>| wf_rem(events@, i as int, st);
                        assert(wf_rem(events@, (i + 1) as int, st));
                    }
                }
                i = i + 1;
            },
            Event::Eof => {
                return Ok((refid, sinfo));
            },
            Event::Other => {
                proof {
                    if wf_rem(events@, 0, Seq::empty()) {
                        let st = choose|st: Seq<Seq<char>>| wf_rem(events@, i as int, st);
                        assert(wf_rem(events@, (i + 1) as int, st));
                    }
                }
                i = i + 1;
            },
        }
    }
    proof {
        if wf_rem(events@, 0, Seq::empty()) {
            let st = choose|st: Seq<Seq<char>>| wf_rem(events@, i as int, st);
            assert(false);
        }
    }
    Err(ParseError::Truncated)
}


pub proof fn lemma_define_scan_bounds(
    events: Seq<Event>,
    pos: int,
    nm: Seq<char>,
    init: Seq<char>,
    brief: Seq<char>,
    desc: Seq<char>,
)
    ensures
        define_scan(events, pos, nm, init, brief, desc) matches Some(p) ==> pos <= p.0
            <= events.len(),
    decreases events.len() - pos,
{
    if 0 <= pos < events.len() {
        match events[pos] {
            Event::Start { name, .. } => {
                lemma_scan_end_bounds(events, pos + 1, seq![name@]);
                let e = text_end(events, pos + 1, name@);
                let v = text_val(events, pos + 1, name@);
                if e >= 0 {
                    lemma_define_scan_bounds(events, e, v, init, brief, desc);
                    lemma_define_scan_bounds(events, e, nm, v, brief, desc);
                    lemma_define_scan_bounds(events, e, nm, init, v, desc);
                    lemma_define_scan_bounds(events, e, nm, init, brief, v);
                }
                lemma_define_scan_bounds(events, pos + 1, nm, init, brief, desc);
            },
            Event::End { name } => {
                lemma_define_scan_bounds(events, pos + 1, nm, init, brief, desc);
            },
            Event::Text { .. } => {
                lemma_define_scan_bounds(events, pos + 1, nm, init, brief, desc);
            },
            Event::Other => {
                lemma_define_scan_bounds(events, pos + 1, nm, init, brief, desc);
            },
            Event::Eof => {},
        }
    }
}

pub proof fn lemma_enum_scan_bounds(
    events: Seq<Event>,
    pos: int,
    nm: Seq<char>,
    brief: Seq<char>,
    desc: Seq<char>,
    ms: Seq<(Seq<char>, Seq<char>, Seq<char>, Seq<char>, Seq<char>)>,
)
    ensures
        enum_scan(events, pos, nm, brief, desc, ms) matches Some(p) ==> pos <= p.0
            <= events.len(),
    decreases events.len() - pos,
{
    if 0 <= pos < events.len() {
        match events[pos] {
            Event::Start { name, .. } => {
                lemma_scan_end_bounds(events, pos + 1, seq![name@]);
                lemma_member_scan_bounds(
                    events,
                    pos + 1,
                    Seq::empty(),
                    Seq::empty(),
                    Seq::empty(),
                    Seq::empty(),
                    Seq::empty(),
                );
                match member_scan(
                    events,
                    pos + 1,
                    Seq::empty(),
                    Seq::empty(),
                    Seq::empty(),
                    Seq::empty(),
                    Seq::empty(),
                ) {
                    Some(m) => {
                        lemma_enum_scan_bounds(events, m.0, nm, brief, desc, ms.push(
                            (m.1, m.2, m.3, m.4, m.5),
                        ));
                    },
                    None => {},
                }
                let e = text_end(events, pos + 1, name@);
                let v = text_val(events, pos + 1, name@);
                if e >= 0 {
                    lemma_enum_scan_bounds(events, e, v, brief, desc, ms);
                    lemma_enum_scan_bounds(events, e, nm, v, desc, ms);
                    lemma_enum_scan_bounds(events, e, nm, brief, v, ms);
                    lemma_enum_scan_bounds(events, e, nm, brief, desc, ms);
                }
            },
            Event::Text { .. } => {
                lemma_enum_scan_bounds(events, pos + 1, nm, brief, desc, ms);
            },
            Event::Other => {
                lemma_enum_scan_bounds(events, pos + 1, nm, brief, desc, ms);
            },
            _ => {},
        }
    }
}

pub proof fn lemma_fi_scan_bounds(events: Seq<Event>, pos: int, st: FiState)
    ensures
        fi_scan(events, pos, st) matches Some(p) ==> pos < p.0 <= events.len(),
    decreases events.len() - pos,
{
    if 0 <= pos < events.len() {
        match events[pos] {
            Event::Start { name, .. } => {
                lemma_scan_end_bounds(events, pos + 1, seq![name@]);
                lemma_fp_scan_bounds(events, pos + 1, Seq::empty(), Seq::empty(), None);
                lemma_dtl_scan_bounds(
                    events,
                    pos + 1,
                    name@,
                    st.1.map_values(|p: PView| p.0),
                    seq![dtl_frame0()],
                    dtl_out0(st.1.map_values(|p: PView| p.3)),
                );
                match fp_scan(events, pos + 1, Seq::empty(), Seq::empty(), None) {
                    Some(p) => {
                        lemma_fi_scan_bounds(events, p.0, (st.0, st.1.push(
                            (p.1, p.2, Seq::empty(), Seq::empty(), Seq::empty(), p.3),
                        ), st.2));
                    },
                    None => {},
                }
                match dtl_scan(
                    events,
                    pos + 1,
                    name@,
                    st.1.map_values(|p: PView| p.0),
                    seq![dtl_frame0()],
                    dtl_out0(st.1.map_values(|p: PView| p.3)),
                ) {
                    Some(p) => {
                        lemma_fi_scan_bounds(events, p.0, (st.0, Seq::new(
                            st.1.len(),
                            |j: int|
                                (st.1[j].0, st.1[j].1, st.1[j].2, ((p.1).4)[j], st.1[j].4,
                                st.1[j].5),
                        ), ((st.2).0 + (p.1).0, (st.2).1 + (p.1).1, (st.2).2 + (p.1).2, (st.2).3
                            + (p.1).3)));
                    },
                    None => {},
                }
                let e = text_end(events, pos + 1, name@);
                let v = text_val(events, pos + 1, name@);
                if e >= 0 {
                    lemma_fi_scan_bounds(events, e, ((v, (st.0).1, (st.0).2, (st.0).3, (st.0).4),
                    st.1, st.2));
                    lemma_fi_scan_bounds(events, e, (((st.0).0, v, (st.0).2, (st.0).3, (st.0).4),
                    st.1, st.2));
                    lemma_fi_scan_bounds(events, e, (((st.0).0, (st.0).1, v, (st.0).3, (st.0).4),
                    st.1, st.2));
                    lemma_fi_scan_bounds(events, e, (((st.0).0, (st.0).1, (st.0).2, v, (st.0).4),
                    st.1, st.2));
                    lemma_fi_scan_bounds(events, e, (((st.0).0, (st.0).1, (st.0).2, (st.0).3, v),
                    st.1, st.2));
                    lemma_fi_scan_bounds(events, e, (st.0, st.1, st.2));
                }
            },
            Event::End { name } => {
                if name@ != "memberdef"@ {
                    lemma_fi_scan_bounds(events, pos + 1, st);
                }
            },
            Event::Text { .. } => {
                lemma_fi_scan_bounds(events, pos + 1, st);
            },
            Event::Other => {
                lemma_fi_scan_bounds(events, pos + 1, st);
            },
            Event::Eof => {},
        }
    }
}


/// One parsed enum: the identifier it is filed under, and its name,
/// descriptions and members.
pub type EnumRec = (
    Seq<char>,
    (Seq<char>, Seq<char>, Seq<char>, Seq<(Seq<char>, Seq<char>, Seq<char>, Seq<char>, Seq<char>)>),
);

/// The whole-file state: the function documents in source order, the
/// defines in source order, the enums with their identifiers in source
/// order, the effective header name, and the whole-file page's brief and
/// detailed contribution.
pub type RfState = (
    Seq<FiState>,
    Seq<(Seq<char>, Seq<char>, Seq<char>, Seq<char>)>,
    Seq<EnumRec>,
    Seq<char>,
    Seq<char>,
    DtlOut,
);

/// The whole-file state before any event, under the caller's header name.
pub open spec fn rf_state0(header: Seq<char>) -> RfState {
    (Seq::empty(), Seq::empty(), Seq::empty(), header, Seq::empty(), dtl_out0(Seq::empty()))
}

/// A document whose fields are exactly a gathered function-member state.
pub open spec fn doc_matches(f: FunctionInfo, st: FiState) -> bool {
    &&& f.fn_type@ == (st.0).0
    &&& f.fn_def@ == (st.0).1
    &&& f.fn_argsstring@ == (st.0).2
    &&& f.fn_name@ == (st.0).3
    &&& f.fn_brief@ == (st.0).4
    &&& fnp_views(f.fn_args@) == st.1
    &&& f.fn_detail@ == (st.2).0
    &&& f.fn_returnval@ == (st.2).1
    &&& f.fn_note@ == (st.2).2
    &&& retval_views(f.fn_retvals@) == (st.2).3
}

/// The field views of a define list.
pub open spec fn define_views(ds: Seq<HashDefine>) -> Seq<
    (Seq<char>, Seq<char>, Seq<char>, Seq<char>),
> {
    ds.map_values(|d: HashDefine| (d.hd_name@, d.hd_init@, d.hd_brief@, d.hd_desc@))
}

/// The walk of a whole compound-documentation source: member definitions
/// are dispatched by their kind attribute (functions to documents, defines
/// and enums to their lists, typedefs consumed and discarded, anything
/// else stepped over), the first compound name fills a still-default
/// header, file-level descriptions land on the whole-file page, and the
/// end-of-stream event finishes; a stream ending any other way fails.
pub open spec fn rf_scan(events: Seq<Event>, pos: int, st: RfState) -> Option<RfState>
    decreases events.len() - pos,
    via rf_scan_dec
{
    if pos < 0 || pos >= events.len() {
        None
    } else {
        match events[pos] {
            Event::Start { name, attrs } => if name@ == "memberdef"@ {
                let kind = attr_value(attrs@, "kind"@);
                if kind == "function"@ {
                    match fi_scan(events, pos + 1, fi_state0()) {
                        Some(p) => rf_scan(
                            events,
                            p.0,
                            (st.0.push(p.1), st.1, st.2, st.3, st.4, st.5),
                        ),
                        None => None,
                    }
                } else if kind == "define"@ {
                    match define_scan(
                        events,
                        pos + 1,
                        Seq::empty(),
                        Seq::empty(),
                        Seq::empty(),
                        Seq::empty(),
                    ) {
                        Some(p) => rf_scan(
                            events,
                            p.0,
                            (st.0, st.1.push((p.1, p.2, p.3, p.4)), st.2, st.3, st.4, st.5),
                        ),
                        None => None,
                    }
                } else if kind == "enum"@ {
                    match enum_scan(
                        events,
                        pos + 1,
                        Seq::empty(),
                        Seq::empty(),
                        Seq::empty(),
                        Seq::empty(),
                    ) {
                        Some(p) => rf_scan(
                            events,
                            p.0,
                            (st.0, st.1, st.2.push(
                                (attr_value(attrs@, "id"@), (p.1, p.2, p.3, p.4)),
                            ), st.3, st.4, st.5),
                        ),
                        None => None,
                    }
                } else if kind == "typedef"@ {
                    if text_end(events, pos + 1, name@) < 0 {
                        None
                    } else {
                        rf_scan(events, text_end(events, pos + 1, name@), st)
                    }
                } else {
                    rf_scan(events, pos + 1, st)
                }
            } else if name@ == "compoundname"@ {
                if st.3 == "unknown.h"@ {
                    if text_end(events, pos + 1, name@) < 0 {
                        None
                    } else {
                        rf_scan(
                            events,
                            text_end(events, pos + 1, name@),
                            (st.0, st.1, st.2, text_val(events, pos + 1, name@), st.4, st.5),
                        )
                    }
                } else {
                    rf_scan(events, pos + 1, st)
                }
            } else if name@ == "briefdescription"@ {
                if text_end(events, pos + 1, name@) < 0 {
                    None
                } else {
                    rf_scan(
                        events,
                        text_end(events, pos + 1, name@),
                        (st.0, st.1, st.2, st.3, st.4 + text_val(events, pos + 1, name@), st.5),
                    )
                }
            } else if name@ == "detaileddescription"@ {
                match dtl_scan(
                    events,
                    pos + 1,
                    name@,
                    Seq::empty(),
                    seq![dtl_frame0()],
                    dtl_out0((st.5).4),
                ) {
                    Some(p) => rf_scan(
                        events,
                        p.0,
                        (st.0, st.1, st.2, st.3, st.4, ((st.5).0 + (p.1).0, (st.5).1 + (p.1).1,
                        (st.5).2 + (p.1).2, (st.5).3 + (p.1).3, (p.1).4)),
                    ),
                    None => None,
                }
            } else {
                if std_elem_end(events, pos + 1, name@) < 0 {
                    None
                } else {
                    rf_scan(events, std_elem_end(events, pos + 1, name@), st)
                }
            },
            Event::End { .. } => rf_scan(events, pos + 1, st),
            Event::Text { .. } => rf_scan(events, pos + 1, st),
            Event::Other => rf_scan(events, pos + 1, st),
            Event::Eof => Some(st),
        }
    }
}

#[via_fn]
proof fn rf_scan_dec(events: Seq<Event>, pos: int, st: RfState) {
    if 0 <= pos < events.len() {
        match events[pos] {
            Event::Start { name, .. } => {
                lemma_scan_end_bounds(events, pos + 1, seq![name@]);
                lemma_fi_scan_bounds(events, pos + 1, fi_state0());
                lemma_define_scan_bounds(
                    events,
                    pos + 1,
                    Seq::empty(),
                    Seq::empty(),
                    Seq::empty(),
                    Seq::empty(),
                );
                lemma_enum_scan_bounds(
                    events,
                    pos + 1,
                    Seq::empty(),
                    Seq::empty(),
                    Seq::empty(),
                    Seq::empty(),
                );
                lemma_dtl_scan_bounds(
                    events,
                    pos + 1,
                    name@,
                    Seq::empty(),
                    seq![dtl_frame0()],
                    dtl_out0((st.5).4),
                );
            },
            _ => {},
        }
    }
}


/// The gathered-state view of one document.
pub open spec fn doc_views(f: FunctionInfo) -> FiState {
    (
        (f.fn_type@, f.fn_def@, f.fn_argsstring@, f.fn_name@, f.fn_brief@),
        fnp_views(f.fn_args@),
        (f.fn_detail@, f.fn_returnval@, f.fn_note@, retval_views(f.fn_retvals@)),
    )
}

/// The gathered-state views of a document list.
pub open spec fn docs_views(fs: Seq<FunctionInfo>) -> Seq<FiState> {
    fs.map_values(|f: FunctionInfo| doc_views(f))
}

/// Reads a whole compound-documentation event sequence into the document
/// model: the ordered function documents, the structure collection with
/// its enums and unresolved placeholders, and the effective header file
/// name. The synthesized whole-file document, carrying the collected
/// defines and named after the header, comes last.
#[verifier::rlimit(100)]
#[verifier::spinoff_prover]
pub fn read_file(events: &Vec<Event>, headerfile: &str) -> (r: Result<
    (Vec<FunctionInfo>, StructMap, String),
    ParseError,
>)
    ensures
        r matches Ok(t) ==> {
            &&& t.0@.len() >= 1
            &&& t.0@.last().fn_name@ == t.2@
            &&& t.0@.last().fn_refids@.len() == 0
            &&& forall|j: int| 0 <= j < t.0@.len() - 1 ==> (#[trigger] t.0@[j]).fn_defines@.len()
                == 0
            &&& forall|j: int| 0 <= j < t.0@.len() ==> strictly_sorted(
                (#[trigger] t.0@[j]).fn_refids@,
            )
            &&& forall|j: int, k: int|
                0 <= j < t.0@.len() && 0 <= k < t.0@[j].fn_refids@.len() ==> t.1.spec_contains(
                    (#[trigger] t.0@[j].fn_refids@[k])@,
                )
            &&& forall|j: int, k: Seq<char>|
                0 <= j < t.0@.len() ==> (#[trigger] contains_id(t.0@[j].fn_refids@, k) <==> exists|
                    l: int,
                |
                    0 <= l < t.0@[j].fn_args@.len() && ((
                    #[trigger] t.0@[j].fn_args@[l]).par_refid matches Some(id) && id@ == k))
            &&& forall|key: Seq<char>|
                t.1.spec_contains(key) ==> ((#[trigger] t.1.spec_get(key)) matches Some(s) && (
                s.str_type == StructureType::Enum || s.str_type == StructureType::Unknown))
            &&& (headerfile@ != "unknown.h"@ ==> t.2@ == headerfile@)
        },
        wf_rem(events@, 0, Seq::empty()) ==> r is Ok,
        r is Ok <==> rf_scan(events@, 0, rf_state0(headerfile@)) is Some,
        r matches Ok(t) ==> ({
            let st = rf_scan(events@, 0, rf_state0(headerfile@))->Some_0;
            let g = t.0@.last();
            &&& t.2@ == st.3
            &&& t.0@.len() == st.0.len() + 1
            &&& forall|j: int| 0 <= j < st.0.len() ==> doc_matches(#[trigger] t.0@[j], st.0[j])
            &&& define_views(g.fn_defines@) == st.1
            &&& g.fn_brief@ == st.4
            &&& g.fn_detail@ == (st.5).0
            &&& g.fn_returnval@ == (st.5).1
            &&& g.fn_note@ == (st.5).2
            &&& retval_views(g.fn_retvals@) == (st.5).3
            &&& forall|j: int| 0 <= j < st.2.len() ==> t.1.spec_contains((#[trigger] st.2[j]).0)
        }),
{
    let mut defines = Vec::<HashDefine>::new();
    let mut general = FunctionInfo::new();
    let mut functions = Vec::<FunctionInfo>::new();
    let mut structures = StructMap::new();
    let mut header = headerfile.to_owned();
    let mut i: usize = 0;
    let ghost mut gens: Seq<EnumRec> = Seq::empty();
    proof {
        if wf_rem(events@, 0, Seq::empty()) {
            assert(exists|st: Seq<Seq<char>>| #[trigger] wf_rem(events@, 0, st));
        }
        assert(docs_views(functions@) =~= Seq::<FiState>::empty());
        assert(define_views(defines@) =~= Seq::<
            (Seq<char>, Seq<char>, Seq<char>, Seq<char>),
        >::empty());
        assert(retval_views(general.fn_retvals@) =~= Seq::<(Seq<char>, Seq<char>)>::empty());
        assert((docs_views(functions@), define_views(defines@), gens, header@, general.fn_brief@,
        (general.fn_detail@, general.fn_returnval@, general.fn_note@, retval_views(
            general.fn_retvals@,
        ), Seq::<Seq<char>>::empty())) =~= rf_state0(headerfile@));
    }
    while i < events.len()
        invariant
            i <= events@.len(),
            rf_scan(events@, 0, rf_state0(headerfile@)) == rf_scan(
                events@,
                i as int,
                (docs_views(functions@), define_views(defines@), gens, header@,
                general.fn_brief@, (general.fn_detail@, general.fn_returnval@, general.fn_note@,
                retval_views(general.fn_retvals@), Seq::<Seq<char>>::empty())),
            ),
            forall|j: int| 0 <= j < gens.len() ==> structures.spec_contains(
                (#[trigger] gens[j]).0,
            ),
            wf_rem(events@, 0, Seq::empty()) ==> exists|st: Seq<Seq<char>>|
                wf_rem(events@, i as int, st),
            forall|j: int| 0 <= j < functions@.len() ==> (#[trigger] functions@[j]).fn_defines@.len()
                == 0,
            forall|j: int| 0 <= j < functions@.len() ==> strictly_sorted(
                (#[trigger] functions@[j]).fn_refids@,
            ),
            forall|j: int, k: int|
                0 <= j < functions@.len() && 0 <= k < functions@[j].fn_refids@.len()
                    ==> structures.spec_contains((#[trigger] functions@[j].fn_refids@[k])@),
            forall|j: int, k: Seq<char>|
                0 <= j < functions@.len() ==> (#[trigger] contains_id(
                    functions@[j].fn_refids@,
                    k,
                ) <==> exists|l: int|
                    0 <= l < functions@[j].fn_args@.len() && ((
                    #[trigger] functions@[j].fn_args@[l]).par_refid matches Some(id) && id@ == k)),
            forall|key: Seq<char>|
                structures.spec_contains(key) ==> ((#[trigger] structures.spec_get(
                    key,
                )) matches Some(s) && (s.str_type == StructureType::Enum || s.str_type
                    == StructureType::Unknown)),
            general.fn_refids@.len() == 0,
            general.fn_defines@.len() == 0,
            general.fn_name@.len() == 0,
            general.fn_args@.len() == 0,
            headerfile@ != "unknown.h"@ ==> header@ == headerfile@,
        decreases events@.len() - i,
    {
        match &events[i] {
            Event::Start { name, attrs } => {
                let ghost nm = name@;
                if str_eq(name.as_str(), "memberdef") {
                    let kind = get_attr(attrs, "kind");
                    if str_eq(kind.as_str(), "function") {
                        // Do function stuff: go down the tree collecting
                        // info until the member definition closes.
                        let ghost mid = structures;
                        let ghost pre_funs = functions@;
                        match collect_function_info(events, i + 1, &mut functions, &mut structures)
                        {
                            Ok(np) => {
                                proof {
                                    assert(doc_views(functions@.last()) =~= (fi_scan(
                                        events@,
                                        (i + 1) as int,
                                        fi_state0(),
                                    )->Some_0).1);
                                    assert(docs_views(functions@) =~= docs_views(pre_funs).push(
                                        doc_views(functions@.last()),
                                    )) by {
                                        assert(functions@.take(pre_funs.len() as int)
                                            =~= pre_funs);
                                        assert forall|j: int|
                                            0 <= j < pre_funs.len() implies doc_views(
                                            #[trigger] functions@[j],
                                        ) == doc_views(pre_funs[j]) by {
                                            assert(functions@[j] == functions@.take(
                                                pre_funs.len() as int,
                                            )[j]);
                                        }
                                    }
                                    assert forall|j: int|
                                        0 <= j < gens.len() implies structures.spec_contains(
                                        (#[trigger] gens[j]).0,
                                    ) by {
                                        assert(mid.spec_contains(gens[j].0));
                                        assert(structures.spec_get(gens[j].0) == mid.spec_get(
                                            gens[j].0,
                                        ));
                                    }
                                    if wf_rem(events@, 0, Seq::empty()) {
                                        let st = choose|st: Seq<Seq<char>>| wf_rem(events@, i as int, st);
                                        assert(wf_rem(events@, (i + 1) as int, st.push(nm)));
                                        assert(st.push(nm).len() >= 1 && st.push(nm).last() == nm);
                                        assert(st.push(nm).drop_last() =~= st);
                                        let ext = choose|ext: Seq<Seq<char>>|
                                            wf_rem(events@, np as int, st.push(nm).drop_last() + ext);
                                        assert(wf_rem(events@, np as int, st + ext));
                                        assert(exists|st2: Seq<Seq<char>>| #[trigger] wf_rem(events@, np as int, st2));
                                    }
                                }
                                proof {
                                    assert forall|key: Seq<char>|
                                        structures.spec_contains(key) implies ((
                                    #[trigger] structures.spec_get(key)) matches Some(s) && (
                                    s.str_type == StructureType::Enum || s.str_type
                                        == StructureType::Unknown)) by {
                                        if mid.spec_contains(key) {
                                            assert(structures.spec_get(key) == mid.spec_get(key));
                                        }
                                    }
                                    assert forall|j: int, k: int|
                                        0 <= j < functions@.len() && 0 <= k
                                            < functions@[j].fn_refids@.len() implies structures
                                        .spec_contains(
                                        (#[trigger] functions@[j].fn_refids@[k])@,
                                    ) by {
                                        if j < functions@.len() - 1 {
                                            assert(functions@[j]
                                                == functions@.take(functions@.len() - 1)[j]);
                                            assert(mid.spec_contains(functions@[j].fn_refids@[k]@));
                                            assert(structures.spec_get(functions@[j].fn_refids@[k]@)
                                                == mid.spec_get(functions@[j].fn_refids@[k]@));
                                        }
                                    }
                                    assert forall|j: int|
                                        0 <= j < functions@.len() implies (
                                    #[trigger] functions@[j]).fn_defines@.len() == 0 by {
                                        if j < functions@.len() - 1 {
                                            assert(functions@[j]
                                                == functions@.take(functions@.len() - 1)[j]);
                                        }
                                    }
                                    assert forall|j: int|
                                        0 <= j < functions@.len() implies strictly_sorted(
                                        (#[trigger] functions@[j]).fn_refids@,
                                    ) by {
                                        if j < functions@.len() - 1 {
                                            assert(functions@[j]
                                                == functions@.take(functions@.len() - 1)[j]);
                                        }
                                    }
                                    assert forall|j: int, k: Seq<char>|
                                        0 <= j < functions@.len() implies (#[trigger] contains_id(
                                        functions@[j].fn_refids@,
                                        k,
                                    ) <==> exists|l: int|
                                        0 <= l < functions@[j].fn_args@.len() && ((
                                        #[trigger] functions@[j].fn_args@[l]).par_refid matches Some(
                                            id,
                                        ) && id@ == k)) by {
                                        if j < functions@.len() - 1 {
                                            assert(functions@[j]
                                                == functions@.take(functions@.len() - 1)[j]);
                                        }
                                    }
                                }
                                i = np;
                            },
                            Err(e) => {
                                proof {
                                    if wf_rem(events@, 0, Seq::empty()) {
                                        let st = choose|st: Seq<Seq<char>>| wf_rem(events@, i as int, st);
                                        assert(wf_rem(events@, (i + 1) as int, st.push(nm)));
                                        assert(st.push(nm).len() >= 1 && st.push(nm).last() == nm);
                                        assert(false);
                                    }
                                }
                                return Err(e);
                            },
                        }
                    } else if str_eq(kind.as_str(), "define") {
                        // Collect #defines
                        let ghost pre_defs = defines@;
                        match collect_define(events, i + 1) {
                            Ok((np, hd)) => {
                                proof {
                                    assert(define_views(pre_defs.push(hd)) =~= define_views(
                                        pre_defs,
                                    ).push((hd.hd_name@, hd.hd_init@, hd.hd_brief@, hd.hd_desc@)));
                                    if wf_rem(events@, 0, Seq::empty()) {
                                        let st = choose|st: Seq<Seq<char>>| wf_rem(events@, i as int, st);
                                        assert(wf_rem(events@, (i + 1) as int, st.push(nm)));
                                        assert(st.push(nm).len() >= 1 && st.push(nm).last() == nm);
                                        assert(st.push(nm).drop_last() =~= st);
                                        let ext = choose|ext: Seq<Seq<char>>|
                                            wf_rem(events@, np as int, st.push(nm).drop_last() + ext);
                                        assert(wf_rem(events@, np as int, st + ext));
                                        assert(exists|st2: Seq<Seq<char>>| #[trigger] wf_rem(events@, np as int, st2));
                                    }
                                }
                                defines.push(hd);
                                i = np;
                            },
                            Err(e) => {
                                proof {
                                    if wf_rem(events@, 0, Seq::empty()) {
                                        let st = choose|st: Seq<Seq<char>>| wf_rem(events@, i as int, st);
                                        assert(wf_rem(events@, (i + 1) as int, st.push(nm)));
                                        assert(st.push(nm).len() >= 1 && st.push(nm).last() == nm);
                                        assert(false);
                                    }
                                }
                                return Err(e);
                            },
                        }
                    } else if str_eq(kind.as_str(), "enum") {
                        // enums are in the main file, structs have their own
                        let refid = get_attr(attrs, "id");
                        let ghost mid = structures;
                        match collect_enum(events, i + 1, StructureType::Enum) {
                            Ok((np, si)) => {
                                proof {
                                    if wf_rem(events@, 0, Seq::empty()) {
                                        let st = choose|st: Seq<Seq<char>>| wf_rem(events@, i as int, st);
                                        assert(wf_rem(events@, (i + 1) as int, st.push(nm)));
                                        assert(st.push(nm).len() >= 1 && st.push(nm).last() == nm);
                                        assert(st.push(nm).drop_last() =~= st);
                                        let ext = choose|ext: Seq<Seq<char>>|
                                            wf_rem(events@, np as int, st.push(nm).drop_last() + ext);
                                        assert(wf_rem(events@, np as int, st + ext));
                                        assert(exists|st2: Seq<Seq<char>>| #[trigger] wf_rem(events@, np as int, st2));
                                    }
                                }
                                let ghost rk = refid@;
                                structures.insert(refid, si);
                                proof {
                                    gens = gens.push(
                                        (rk, (si.str_name@, si.str_brief@, si.str_description@,
                                        member_views(si.str_members@))),
                                    );
                                    assert forall|j: int|
                                        0 <= j < gens.len() implies structures.spec_contains(
                                        (#[trigger] gens[j]).0,
                                    ) by {
                                        let key = gens[j].0;
                                        assert(structures.spec_get(key) == if key == rk {
                                            Some(si)
                                        } else {
                                            mid.spec_get(key)
                                        });
                                        if j < gens.len() - 1 {
                                            assert(gens[j] == gens.drop_last()[j]);
                                            assert(mid.spec_contains(key));
                                        }
                                    }
                                    assert forall|j: int, k: int|
                                        0 <= j < functions@.len() && 0 <= k
                                            < functions@[j].fn_refids@.len() implies structures
                                        .spec_contains(
                                        (#[trigger] functions@[j].fn_refids@[k])@,
                                    ) by {
                                        assert(mid.spec_contains(functions@[j].fn_refids@[k]@));
                                        let ghost key = functions@[j].fn_refids@[k]@;
                                        assert(structures.spec_get(key) == if key == rk {
                                            Some(si)
                                        } else {
                                            mid.spec_get(key)
                                        });
                                    }
                                    assert forall|key: Seq<char>|
                                        structures.spec_contains(key) implies ((
                                    #[trigger] structures.spec_get(key)) matches Some(s) && (
                                    s.str_type == StructureType::Enum || s.str_type
                                        == StructureType::Unknown)) by {
                                        assert(structures.spec_get(key) == if key == rk {
                                            Some(si)
                                        } else {
                                            mid.spec_get(key)
                                        });
                                    }
                                }
                                i = np;
                            },
                            Err(e) => {
                                proof {
                                    if wf_rem(events@, 0, Seq::empty()) {
                                        let st = choose|st: Seq<Seq<char>>| wf_rem(events@, i as int, st);
                                        assert(wf_rem(events@, (i + 1) as int, st.push(nm)));
                                        assert(st.push(nm).len() >= 1 && st.push(nm).last() == nm);
                                        assert(false);
                                    }
                                }
                                return Err(e);
                            },
                        }
                    } else if str_eq(kind.as_str(), "typedef") {
                        // Ignore typedefs for the moment
                        match collect_text(events, i + 1, name.as_str()) {
                            Ok((np, _t)) => {
                                proof {
                                    if wf_rem(events@, 0, Seq::empty()) {
                                        let st = choose|st: Seq<Seq<char>>| wf_rem(events@, i as int, st);
                                        assert(wf_rem(events@, (i + 1) as int, st.push(nm)));
                                        assert(st.push(nm).len() >= 1 && st.push(nm).last() == nm);
                                        assert(st.push(nm).drop_last() =~= st);
                                        let ext = choose|ext: Seq<Seq<char>>|
                                            wf_rem(events@, np as int, st.push(nm).drop_last() + ext);
                                        assert(wf_rem(events@, np as int, st + ext));
                                        assert(exists|st2: Seq<Seq<char>>| #[trigger] wf_rem(events@, np as int, st2));
                                    }
                                }
                                i = np;
                            },
                            Err(e) => {
                                proof {
                                    if wf_rem(events@, 0, Seq::empty()) {
                                        let st = choose|st: Seq<Seq<char>>| wf_rem(events@, i as int, st);
                                        assert(wf_rem(events@, (i + 1) as int, st.push(nm)));
                                        assert(st.push(nm).len() >= 1 && st.push(nm).last() == nm);
                                        assert(false);
                                    }
                                }
                                return Err(e);
                            },
                        }
                    } else {
                proof {
                    if wf_rem(events@, 0, Seq::empty()) {
                        let st = choose|st: Seq<Seq<char>>| wf_rem(events@, i as int, st);
                        assert(wf_rem(events@, (i + 1) as int, st.push(nm)));
                        assert(exists|st2: Seq<Seq<char>>|
                            #[trigger] wf_rem(events@, (i + 1) as int, st2));
                    }
                }
                        i = i + 1;
                    }
                } else if str_eq(name.as_str(), "compoundname") {
                    // This is the header filename, kept only if none was
                    // supplied (first occurrence wins).
                    if str_eq(header.as_str(), "unknown.h") {
                        match collect_text(events, i + 1, name.as_str()) {
                            Ok((np, t)) => {
                                proof {
                                    if wf_rem(events@, 0, Seq::empty()) {
                                        let st = choose|st: Seq<Seq<char>>| wf_rem(events@, i as int, st);
                                        assert(wf_rem(events@, (i + 1) as int, st.push(nm)));
                                        assert(st.push(nm).len() >= 1 && st.push(nm).last() == nm);
                                        assert(st.push(nm).drop_last() =~= st);
                                        let ext = choose|ext: Seq<Seq<char>>|
                                            wf_rem(events@, np as int, st.push(nm).drop_last() + ext);
                                        assert(wf_rem(events@, np as int, st + ext));
                                        assert(exists|st2: Seq<Seq<char>>| #[trigger] wf_rem(events@, np as int, st2));
                                    }
                                }
                                header = t;
                                i = np;
                            },
                            Err(e) => {
                                proof {
                                    if wf_rem(events@, 0, Seq::empty()) {
                                        let st = choose|st: Seq<Seq<char>>| wf_rem(events@, i as int, st);
                                        assert(wf_rem(events@, (i + 1) as int, st.push(nm)));
                                        assert(st.push(nm).len() >= 1 && st.push(nm).last() == nm);
                                        assert(false);
                                    }
                                }
                                return Err(e);
                            },
                        }
                    } else {
                proof {
                    if wf_rem(events@, 0, Seq::empty()) {
                        let st = choose|st: Seq<Seq<char>>| wf_rem(events@, i as int, st);
                        assert(wf_rem(events@, (i + 1) as int, st.push(nm)));
                        assert(exists|st2: Seq<Seq<char>>|
                            #[trigger] wf_rem(events@, (i + 1) as int, st2));
                    }
                }
                        i = i + 1;
                    }
                } else if str_eq(name.as_str(), "briefdescription") {
                    // These are at the whole-file level
                    match collect_text(events, i + 1, name.as_str()) {
                        Ok((np, t)) => {
                            proof {
                                if wf_rem(events@, 0, Seq::empty()) {
                                    let st = choose|st: Seq<Seq<char>>| wf_rem(events@, i as int, st);
                                    assert(wf_rem(events@, (i + 1) as int, st.push(nm)));
                                    assert(st.push(nm).len() >= 1 && st.push(nm).last() == nm);
                                    assert(st.push(nm).drop_last() =~= st);
                                    let ext = choose|ext: Seq<Seq<char>>|
                                        wf_rem(events@, np as int, st.push(nm).drop_last() + ext);
                                    assert(wf_rem(events@, np as int, st + ext));
                                    assert(exists|st2: Seq<Seq<char>>| #[trigger] wf_rem(events@, np as int, st2));
                                }
                            }
                            general.fn_brief.append(t.as_str());
                            i = np;
                        },
                        Err(e) => {
                            proof {
                                if wf_rem(events@, 0, Seq::empty()) {
                                    let st = choose|st: Seq<Seq<char>>| wf_rem(events@, i as int, st);
                                    assert(wf_rem(events@, (i + 1) as int, st.push(nm)));
                                    assert(st.push(nm).len() >= 1 && st.push(nm).last() == nm);
                                    assert(false);
                                }
                            }
                            return Err(e);
                        },
                    }
                } else if str_eq(name.as_str(), "detaileddescription") {
                    let ghost pre_gen = general;
                    match collect_detail_bits(events, i + 1, name.as_str(), &mut general) {
                        Ok(np) => {
                            proof {
                                assert(param_names(pre_gen.fn_args@) =~= Seq::<Seq<char>>::empty());
                                assert(param_descs(pre_gen.fn_args@) =~= Seq::<Seq<char>>::empty());
                                let inner = dtl_scan(
                                    events@,
                                    (i + 1) as int,
                                    "detaileddescription"@,
                                    Seq::empty(),
                                    seq![dtl_frame0()],
                                    dtl_out0(Seq::empty()),
                                );
                                assert(inner is Some);
                                let p = inner->Some_0;
                                assert(param_descs(general.fn_args@) =~= Seq::<Seq<char>>::empty());
                                assert(((p.1).4) =~= Seq::<Seq<char>>::empty());
                                if wf_rem(events@, 0, Seq::empty()) {
                                    let st = choose|st: Seq<Seq<char>>| wf_rem(events@, i as int, st);
                                    assert(wf_rem(events@, (i + 1) as int, st.push(nm)));
                                    assert(st.push(nm).len() >= 1 && st.push(nm).last() == nm);
                                    assert(st.push(nm).drop_last() =~= st);
                                    let ext = choose|ext: Seq<Seq<char>>|
                                        wf_rem(events@, np as int, st.push(nm).drop_last() + ext);
                                    assert(wf_rem(events@, np as int, st + ext));
                                    assert(exists|st2: Seq<Seq<char>>| #[trigger] wf_rem(events@, np as int, st2));
                                }
                            }
                            i = np;
                        },
                        Err(e) => {
                            proof {
                                assert(param_names(pre_gen.fn_args@) =~= Seq::<Seq<char>>::empty());
                                assert(param_descs(pre_gen.fn_args@) =~= Seq::<Seq<char>>::empty());
                                if wf_rem(events@, 0, Seq::empty()) {
                                    let st = choose|st: Seq<Seq<char>>| wf_rem(events@, i as int, st);
                                    assert(wf_rem(events@, (i + 1) as int, st.push(nm)));
                                    assert(st.push(nm).len() >= 1 && st.push(nm).last() == nm);
                                    assert(false);
                                }
                            }
                            return Err(e);
                        },
                    }
                } else {
                    match parse_standard_elements(events, i + 1, name.as_str(), attrs) {
                        Ok((np, _t)) => {
                            proof {
                                if wf_rem(events@, 0, Seq::empty()) {
                                    let st = choose|st: Seq<Seq<char>>| wf_rem(events@, i as int, st);
                                    assert(wf_rem(events@, (i + 1) as int, st.push(nm)));
                                    assert(st.push(nm).len() >= 1 && st.push(nm).last() == nm);
                                    assert(st.push(nm).drop_last() =~= st);
                                    let ext = choose|ext: Seq<Seq<char>>|
                                        wf_rem(events@, np as int, st.push(nm).drop_last() + ext);
                                    assert(wf_rem(events@, np as int, st + ext));
                                    assert(exists|st2: Seq<Seq<char>>| #[trigger] wf_rem(events@, np as int, st2));
                                }
                            }
                            i = np;
                        },
                        Err(e) => {
                            proof {
                                if wf_rem(events@, 0, Seq::empty()) {
                                    let st = choose|st: Seq<Seq<char>>| wf_rem(events@, i as int, st);
                                    assert(wf_rem(events@, (i + 1) as int, st.push(nm)));
                                    assert(st.push(nm).len() >= 1 && st.push(nm).last() == nm);
                                    assert(false);
                                }
                            }
                            return Err(e);
                        },
                    }
                }
            },
            Event::End { .. } => {
                proof {
                    if wf_rem(events@, 0, Seq::empty()) {
                        let st = choose|st: Seq<Seq<char>>| wf_rem(events@, i as int, st);
                        assert(wf_rem(events@, (i + 1) as int, st.drop_last()));
                        assert(exists|st2: Seq<Seq<char>>|
                            #[trigger] wf_rem(events@, (i + 1) as int, st2));
                    }
                }
                i = i + 1;
            },
            Event::Text { .. } => {
                proof {
                    if wf_rem(events@, 0, Seq::empty()) {
                        let st = choose|st: Seq<Seq<char>>| wf_rem(events@, i as int, st);
                        assert(wf_rem(events@, (i + 1) as int, st));
                    }
                }
                i = i + 1;
            },
            Event::Eof => {
                general.fn_name = header.clone();
                general.fn_defines = defines;
                let ghost pre = functions@;
                functions.push(general);
                proof {
                    assert forall|j: int| 0 <= j < pre.len() implies doc_matches(
                        #[trigger] functions@[j],
                        docs_views(pre)[j],
                    ) by {
                        assert(functions@[j] == pre[j]);
                    }
                    assert(functions@.last() == functions@[pre.len() as int]);
                    assert forall|j: int| 0 <= j < functions@.len() - 1 implies (
                    #[trigger] functions@[j]).fn_defines@.len() == 0 by {
                        assert(functions@[j] == pre[j]);
                    }
                    assert forall|j: int, k: Seq<char>|
                        0 <= j < functions@.len() implies (#[trigger] contains_id(
                        functions@[j].fn_refids@,
                        k,
                    ) <==> exists|l: int|
                        0 <= l < functions@[j].fn_args@.len() && ((
                        #[trigger] functions@[j].fn_args@[l]).par_refid matches Some(id) && id@
                            == k)) by {
                        if j < functions@.len() - 1 {
                            assert(functions@[j] == pre[j]);
                        } else {
                            assert(functions@[j].fn_refids@.len() == 0);
                            assert(functions@[j].fn_args@.len() == 0);
                        }
                    }
                }
                return Ok((functions, structures, header));
            },
            Event::Other => {
                proof {
                    if wf_rem(events@, 0, Seq::empty()) {
                        let st = choose|st: Seq<Seq<char>>| wf_rem(events@, i as int, st);
                        assert(wf_rem(events@, (i + 1) as int, st));
                    }
                }
                i = i + 1;
            },
        }
    }
    proof {
        if wf_rem(events@, 0, Seq::empty()) {
            let st = choose|st: Seq<Seq<char>>| wf_rem(events@, i as int, st);
            assert(false);
        }
    }
    Err(ParseError::Truncated)
}

} // verus!
