//! The document model: markup events, function documents, structures,
//! defines, and the keyed collection of structures discovered while parsing.
use vstd::prelude::*;
use crate::text::{lex_lt, str_eq, str_lt, lemma_lex_connected, lemma_lex_transitive};

verus! {

/// One attribute of an element-open event.
#[derive(Debug)]
pub struct Attr {
    pub name: String,
    pub value: String,
}

/// One structural event of a forward-only markup stream.
#[derive(Debug)]
pub enum Event {
    /// An element opens, with its tag name and attributes.
    Start { name: String, attrs: Vec<Attr> },
    /// Character data between tags.
    Text { text: String },
    /// An element closes.
    End { name: String },
    /// End of the stream.
    Eof,
    /// Anything else the stream may carry; always skipped.
    Other,
}

/// How reading a document can fail.
#[derive(Clone, Copy, PartialEq, Eq, Structural, Debug)]
pub enum ParseError {
    /// The event source could not produce the next event.
    ReadFailed,
    /// The event sequence ended inside an element.
    Truncated,
}

/// The value of the first attribute with the given name, or empty.
pub open spec fn attr_value(attrs: Seq<Attr>, name: Seq<char>) -> Seq<char>
    decreases attrs.len(),
{
    if attrs.len() == 0 {
        Seq::empty()
    } else if attrs[0].name@ == name {
        attrs[0].value@
    } else {
        attr_value(attrs.drop_first(), name)
    }
}

/// Does what it says on the tin.
pub fn get_attr(attrs: &Vec<Attr>, attrname: &str) -> (r: String)
    ensures
        r@ == attr_value(attrs@, attrname@),
{
    let mut i: usize = 0;
    proof {
        assert(attrs@.skip(0) =~= attrs@);
    }
    while i < attrs.len()
        invariant
            i <= attrs@.len(),
            attr_value(attrs@, attrname@) == attr_value(attrs@.skip(i as int), attrname@),
        decreases attrs@.len() - i,
    {
        proof {
            assert(attrs@.skip(i as int).drop_first() =~= attrs@.skip(i + 1));
        }
        if str_eq(attrs[i].name.as_str(), attrname) {
            return attrs[i].value.clone();
        }
        i = i + 1;
    }
    String::new()
}

/// Function parameter - also used for structure members.
#[derive(Debug)]
pub struct FnParam {
    pub par_name: String,
    pub par_type: String,
    pub par_refid: Option<String>,
    pub par_args: String,
    pub par_desc: String,
    pub par_brief: String,
}

impl FnParam {
    /// An exact copy.
    pub fn duplicate(&self) -> (r: FnParam)
        ensures
            r == *self,
    {
        FnParam {
            par_name: self.par_name.clone(),
            par_type: self.par_type.clone(),
            par_refid: match &self.par_refid {
                Some(s) => Some(s.clone()),
                None => None,
            },
            par_args: self.par_args.clone(),
            par_desc: self.par_desc.clone(),
            par_brief: self.par_brief.clone(),
        }
    }
}

/// A symbolic return-code token and its description.
#[derive(Debug)]
pub struct ReturnVal {
    pub ret_name: String,
    pub ret_desc: String,
}

/// The kind of a documented aggregate.
#[derive(Clone, Copy, PartialEq, Eq, Structural, Debug)]
pub enum StructureType {
    /// A placeholder for a reference seen before the structure was resolved.
    Unknown,
    Enum,
    Struct,
}

/// A documented aggregate type that parameters may reference.
#[derive(Debug)]
pub struct StructureInfo {
    pub str_type: StructureType,
    pub str_name: String,
    pub str_brief: String,
    pub str_description: String,
    pub str_members: Vec<FnParam>,
}

/// Two structures carrying the same data.
pub open spec fn same_structure(a: StructureInfo, b: StructureInfo) -> bool {
    &&& a.str_type == b.str_type
    &&& a.str_name == b.str_name
    &&& a.str_brief == b.str_brief
    &&& a.str_description == b.str_description
    &&& a.str_members@ == b.str_members@
}

impl StructureInfo {
    pub fn new() -> (r: StructureInfo)
        ensures
            r.str_type == StructureType::Unknown,
            r.str_name@ == Seq::<char>::empty(),
            r.str_brief@ == Seq::<char>::empty(),
            r.str_description@ == Seq::<char>::empty(),
            r.str_members@ == Seq::<FnParam>::empty(),
    {
        StructureInfo {
            str_type: StructureType::Unknown,
            str_name: String::new(),
            str_brief: String::new(),
            str_description: String::new(),
            str_members: Vec::<FnParam>::new(),
        }
    }

    /// A copy carrying the same data.
    pub fn duplicate(&self) -> (r: StructureInfo)
        ensures
            same_structure(r, *self),
    {
        let mut members = Vec::<FnParam>::new();
        let mut i: usize = 0;
        while i < self.str_members.len()
            invariant
                i <= self.str_members@.len(),
                members@ == self.str_members@.take(i as int),
            decreases self.str_members@.len() - i,
        {
            members.push(self.str_members[i].duplicate());
            proof {
                assert(self.str_members@.take(i + 1) =~= self.str_members@.take(i as int).push(
                    self.str_members@[i as int],
                ));
            }
            i = i + 1;
        }
        proof {
            assert(self.str_members@.take(self.str_members@.len() as int) =~= self.str_members@);
        }
        StructureInfo {
            str_type: self.str_type,
            str_name: self.str_name.clone(),
            str_brief: self.str_brief.clone(),
            str_description: self.str_description.clone(),
            str_members: members,
        }
    }
}

/// Collected #defines - printed on the general page.
#[derive(Debug)]
pub struct HashDefine {
    pub hd_name: String,
    pub hd_init: String,
    pub hd_brief: String,
    pub hd_desc: String,
}

/// Information for one output document: a function page, or the synthetic
/// whole-file page. Pretty much everything else is hung off this.
#[derive(Debug)]
pub struct FunctionInfo {
    pub fn_type: String,
    pub fn_name: String,
    pub fn_def: String,
    pub fn_argsstring: String,
    pub fn_brief: String,
    pub fn_detail: String,
    pub fn_returnval: String,
    pub fn_note: String,
    pub fn_args: Vec<FnParam>,
    pub fn_defines: Vec<HashDefine>,
    pub fn_retvals: Vec<ReturnVal>,
    /// Reference identifiers of structures used by the parameters,
    /// kept deduplicated and in strictly ascending order.
    pub fn_refids: Vec<String>,
}

impl FunctionInfo {
    pub fn new() -> (r: FunctionInfo)
        ensures
            r.fn_type@ == Seq::<char>::empty(),
            r.fn_name@ == Seq::<char>::empty(),
            r.fn_def@ == Seq::<char>::empty(),
            r.fn_argsstring@ == Seq::<char>::empty(),
            r.fn_brief@ == Seq::<char>::empty(),
            r.fn_detail@ == Seq::<char>::empty(),
            r.fn_returnval@ == Seq::<char>::empty(),
            r.fn_note@ == Seq::<char>::empty(),
            r.fn_args@ == Seq::<FnParam>::empty(),
            r.fn_defines@ == Seq::<HashDefine>::empty(),
            r.fn_retvals@ == Seq::<ReturnVal>::empty(),
            r.fn_refids@ == Seq::<String>::empty(),
    {
        FunctionInfo {
            fn_type: String::new(),
            fn_name: String::new(),
            fn_def: String::new(),
            fn_argsstring: String::new(),
            fn_brief: String::new(),
            fn_detail: String::new(),
            fn_returnval: String::new(),
            fn_note: String::new(),
            fn_args: Vec::<FnParam>::new(),
            fn_defines: Vec::<HashDefine>::new(),
            fn_retvals: Vec::<ReturnVal>::new(),
            fn_refids: Vec::<String>::new(),
        }
    }
}

/// A reference-identifier list in strictly ascending order (so also
/// free of duplicates).
pub open spec fn strictly_sorted(ids: Seq<String>) -> bool {
    forall|i: int, j: int| 0 <= i < j < ids.len() ==> lex_lt(ids[i]@, ids[j]@)
}

/// Whether the list holds the identifier.
pub open spec fn contains_id(ids: Seq<String>, k: Seq<char>) -> bool {
    exists|j: int| 0 <= j < ids.len() && ids[j]@ == k
}

/// Inserts an identifier into a strictly sorted list, keeping it strictly
/// sorted; an identifier already present is left alone.
pub fn insert_refid(ids: &mut Vec<String>, id: &str)
    requires
        strictly_sorted(old(ids)@),
    ensures
        strictly_sorted(final(ids)@),
        forall|k: Seq<char>| contains_id(final(ids)@, k) <==> (contains_id(old(ids)@, k) || k
            == id@),
    decreases old(ids)@.len(),
{
    let mut i: usize = 0;
    while i < ids.len() && str_lt(ids[i].as_str(), id)
        invariant
            i <= ids@.len(),
            ids@ == old(ids)@,
            forall|j: int| 0 <= j < i ==> lex_lt(#[trigger] ids@[j]@, id@),
        decreases ids@.len() - i,
    {
        i = i + 1;
    }
    if i < ids.len() && str_eq(ids[i].as_str(), id) {
        proof {
            assert(contains_id(ids@, id@));
        }
        return ;
    }
    proof {
        if i < ids@.len() {
            lemma_lex_connected(ids@[i as int]@, id@);
            assert(lex_lt(id@, ids@[i as int]@));
        }
        assert forall|j: int| i <= j < ids@.len() implies lex_lt(id@, #[trigger] ids@[j]@) by {
            if j > i {
                lemma_lex_transitive(id@, ids@[i as int]@, ids@[j]@);
            }
        }
    }
    let ghost pre = ids@;
    ids.insert(i, id.to_owned());
    proof {
        assert forall|a: int, b: int| 0 <= a < b < ids@.len() implies lex_lt(
            #[trigger] ids@[a]@,
            #[trigger] ids@[b]@,
        ) by {
            assert(ids@ == pre.insert(i as int, ids@[i as int]));
        }
        assert forall|k: Seq<char>|
            contains_id(ids@, k) <==> (contains_id(pre, k) || k == id@) by {
            if contains_id(pre, k) {
                let j = choose|j: int| 0 <= j < pre.len() && pre[j]@ == k;
                if j < i {
                    assert(ids@[j]@ == k);
                } else {
                    assert(ids@[j + 1]@ == k);
                }
            }
            if contains_id(ids@, k) {
                let j = choose|j: int| 0 <= j < ids@.len() && ids@[j]@ == k;
                if j < i {
                    assert(pre[j]@ == k);
                } else if j > i {
                    assert(pre[j - 1]@ == k);
                }
            }
            assert(ids@[i as int]@ == id@);
        }
    }
}

/// The collection of structures, keyed by reference identifier.
#[derive(Debug)]
pub struct StructMap {
    pub entries: Vec<(String, StructureInfo)>,
}

/// The value under the first entry with the given key.
pub open spec fn entries_lookup(es: Seq<(String, StructureInfo)>, k: Seq<char>) -> Option<
    StructureInfo,
>
    decreases es.len(),
{
    if es.len() == 0 {
        Option::None
    } else if es[0].0@ == k {
        Option::Some(es[0].1)
    } else {
        entries_lookup(es.drop_first(), k)
    }
}

proof fn lemma_lookup_update(
    es: Seq<(String, StructureInfo)>,
    i: int,
    kv: (String, StructureInfo),
    k2: Seq<char>,
)
    requires
        0 <= i < es.len(),
        forall|j: int| 0 <= j < i ==> (#[trigger] es[j]).0@ != kv.0@,
        es[i].0@ == kv.0@,
    ensures
        entries_lookup(es.update(i, kv), k2) == if k2 == kv.0@ {
            Option::Some(kv.1)
        } else {
            entries_lookup(es, k2)
        },
    decreases i,
{
    let up = es.update(i, kv);
    if i == 0 {
        if up[0].0@ != k2 {
            assert(up.drop_first() =~= es.drop_first());
        }
    } else {
        assert(up[0] == es[0]);
        if es[0].0@ != k2 {
            assert(up.drop_first() =~= es.drop_first().update(i - 1, kv));
            lemma_lookup_update(es.drop_first(), i - 1, kv, k2);
        }
    }
}

proof fn lemma_lookup_push(
    es: Seq<(String, StructureInfo)>,
    kv: (String, StructureInfo),
    k2: Seq<char>,
)
    requires
        forall|j: int| 0 <= j < es.len() ==> (#[trigger] es[j]).0@ != kv.0@,
    ensures
        entries_lookup(es.push(kv), k2) == if k2 == kv.0@ {
            Option::Some(kv.1)
        } else {
            entries_lookup(es, k2)
        },
    decreases es.len(),
{
    if es.len() == 0 {
        if kv.0@ != k2 {
            assert(es.push(kv).drop_first() =~= Seq::<(String, StructureInfo)>::empty());
        }
    } else {
        if es[0].0@ != k2 {
            assert(es.push(kv).drop_first() =~= es.drop_first().push(kv));
            lemma_lookup_push(es.drop_first(), kv, k2);
        }
    }
}

proof fn lemma_lookup_prefix(es: Seq<(String, StructureInfo)>, i: int, k: Seq<char>)
    requires
        0 <= i <= es.len(),
        forall|j: int| 0 <= j < i ==> (#[trigger] es[j]).0@ != k,
    ensures
        entries_lookup(es, k) == entries_lookup(es.skip(i), k),
    decreases i,
{
    if i > 0 {
        assert(es.drop_first().skip(i - 1) =~= es.skip(i));
        lemma_lookup_prefix(es.drop_first(), i - 1, k);
    } else {
        assert(es.skip(0) =~= es);
    }
}

impl StructMap {
    pub fn new() -> (r: StructMap)
        ensures
            r.entries@ == Seq::<(String, StructureInfo)>::empty(),
    {
        StructMap { entries: Vec::new() }
    }

    /// Whether the map holds the key.
    pub open spec fn spec_contains(&self, k: Seq<char>) -> bool {
        entries_lookup(self.entries@, k) is Some
    }

    /// The value under the key.
    pub open spec fn spec_get(&self, k: Seq<char>) -> Option<StructureInfo> {
        entries_lookup(self.entries@, k)
    }

    /// Looks a structure up by reference identifier.
    pub fn get(&self, k: &str) -> (r: Option<&StructureInfo>)
        ensures
            match r {
                Some(s) => self.spec_get(k@) == Some(*s),
                None => self.spec_get(k@) is None,
            },
    {
        let mut i: usize = 0;
        while i < self.entries.len()
            invariant
                i <= self.entries@.len(),
                forall|j: int| 0 <= j < i ==> (#[trigger] self.entries@[j]).0@ != k@,
            decreases self.entries@.len() - i,
        {
            if str_eq(self.entries[i].0.as_str(), k) {
                proof {
                    lemma_lookup_prefix(self.entries@, i as int, k@);
                    assert(self.entries@.skip(i as int)[0] == self.entries@[i as int]);
                }
                return Some(&self.entries[i].1);
            }
            i = i + 1;
        }
        proof {
            lemma_lookup_prefix(self.entries@, i as int, k@);
            assert(self.entries@.skip(i as int) =~= Seq::<(String, StructureInfo)>::empty());
        }
        None
    }

    /// Puts a value under a key, replacing what was there.
    pub fn insert(&mut self, k: String, v: StructureInfo)
        ensures
            forall|k2: Seq<char>| final(self).spec_get(k2) == if k2 == k@ {
                Some(v)
            } else {
                old(self).spec_get(k2)
            },
    {
        let mut i: usize = 0;
        while i < self.entries.len()
            invariant
                i <= self.entries@.len(),
                self.entries@ == old(self).entries@,
                forall|j: int| 0 <= j < i ==> (#[trigger] self.entries@[j]).0@ != k@,
            decreases self.entries@.len() - i,
        {
            if str_eq(self.entries[i].0.as_str(), k.as_str()) {
                let ghost pre = self.entries@;
                let _ = self.entries.remove(i);
                self.entries.insert(i, (k, v));
                proof {
                    let kv = self.entries@[i as int];
                    assert(self.entries@ =~= pre.update(i as int, kv));
                    assert forall|k2: Seq<char>|
                        entries_lookup(self.entries@, k2) == if k2 == kv.0@ {
                            Option::Some(kv.1)
                        } else {
                            entries_lookup(pre, k2)
                        } by {
                        lemma_lookup_update(pre, i as int, kv, k2);
                    }
                }
                return ;
            }
            i = i + 1;
        }
        let ghost pre = self.entries@;
        self.entries.push((k, v));
        proof {
            let kv = self.entries@[pre.len() as int];
            assert(self.entries@ =~= pre.push(kv));
            assert forall|k2: Seq<char>|
                entries_lookup(self.entries@, k2) == if k2 == kv.0@ {
                    Option::Some(kv.1)
                } else {
                    entries_lookup(pre, k2)
                } by {
                lemma_lookup_push(pre, kv, k2);
            }
        }
    }
}

} // verus!
