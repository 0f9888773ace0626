//! The structure resolver: the second pass that copies complete enums
//! into the resolved collection, and replaces the builder's unresolved
//! placeholders by the structures read from their own event sources; a
//! placeholder never fetched is dropped.
use vstd::prelude::*;
use crate::model::{StructureInfo, StructureType, StructMap, entries_lookup, same_structure};
use crate::format::word_views;

verus! {

/// The identifiers whose full bodies live in auxiliary sources: every
/// entry that is not an already-complete enum, in collection order.
pub open spec fn fetch_list_spec(es: Seq<(String, StructureInfo)>) -> Seq<Seq<char>>
    decreases es.len(),
{
    if es.len() == 0 {
        Seq::empty()
    } else if es[0].1.str_type is Enum {
        fetch_list_spec(es.drop_first())
    } else {
        seq![es[0].0@] + fetch_list_spec(es.drop_first())
    }
}

/// Read all the structure files we need for our functions: the list of
/// identifiers to load.
pub fn structs_to_fetch(structures: &StructMap) -> (r: Vec<String>)
    ensures
        word_views(r@) == fetch_list_spec(structures.entries@),
{
    let ghost es = structures.entries@;
    let mut out: Vec<String> = Vec::new();
    let mut i: usize = 0;
    proof {
        assert(es.skip(0) =~= es);
        assert(word_views(out@) + fetch_list_spec(es) =~= fetch_list_spec(es));
    }
    while i < structures.entries.len()
        invariant
            i <= es.len(),
            es == structures.entries@,
            word_views(out@) + fetch_list_spec(es.skip(i as int)) == fetch_list_spec(es),
        decreases es.len() - i,
    {
        proof {
            assert(es.skip(i as int).drop_first() =~= es.skip(i + 1));
            assert(es.skip(i as int)[0] == es[i as int]);
        }
        let keep = match structures.entries[i].1.str_type {
            StructureType::Enum => false,
            StructureType::Struct => true,
            StructureType::Unknown => true,
        };
        if keep {
            let ghost pre = out@;
            out.push(structures.entries[i].0.clone());
            proof {
                assert(word_views(out@) =~= word_views(pre).push(es[i as int].0@));
                assert(word_views(pre).push(es[i as int].0@) + fetch_list_spec(es.skip(i + 1))
                    =~= word_views(pre) + (seq![es[i as int].0@] + fetch_list_spec(es.skip(i + 1))));
            }
        }
        i = i + 1;
    }
    proof {
        assert(es.skip(es.len() as int) =~= Seq::<(String, StructureInfo)>::empty());
    }
    out
}

/// The first complete enum filed under the key, if the key's first entry
/// is one.
pub open spec fn enum_lookup(es: Seq<(String, StructureInfo)>, k: Seq<char>) -> Option<
    StructureInfo,
>
    decreases es.len(),
{
    if es.len() == 0 {
        Option::None
    } else if es[0].1.str_type is Enum && es[0].0@ == k {
        Option::Some(es[0].1)
    } else {
        enum_lookup(es.drop_first(), k)
    }
}

/// Whether some complete enum is filed under the key.
pub open spec fn enum_key(es: Seq<(String, StructureInfo)>, k: Seq<char>) -> bool {
    enum_lookup(es, k) is Some
}

/// Whether some fetched structure came back under the key.
pub open spec fn fetched_key(f: Seq<Option<(String, StructureInfo)>>, k: Seq<char>) -> bool {
    exists|j: int| 0 <= j < f.len() && ((#[trigger] f[j]) matches Some(p) && p.0@ == k)
}

/// The last structure fetched under the key, the one that stays.
pub open spec fn last_fetched(f: Seq<Option<(String, StructureInfo)>>, k: Seq<char>) -> Option<
    StructureInfo,
>
    decreases f.len(),
{
    if f.len() == 0 {
        Option::None
    } else {
        match f.last() {
            Some(p) => if p.0@ == k {
                Option::Some(p.1)
            } else {
                last_fetched(f.drop_last(), k)
            },
            None => last_fetched(f.drop_last(), k),
        }
    }
}

proof fn lemma_enum_lookup_push(
    es: Seq<(String, StructureInfo)>,
    x: (String, StructureInfo),
    k: Seq<char>,
)
    ensures
        enum_lookup(es.push(x), k) == if enum_lookup(es, k) is Some {
            enum_lookup(es, k)
        } else if x.1.str_type is Enum && x.0@ == k {
            Option::Some(x.1)
        } else {
            Option::<StructureInfo>::None
        },
    decreases es.len(),
{
    if es.len() == 0 {
        assert(es.push(x)[0] == x);
        assert(enum_lookup(es, k) is None);
        if x.1.str_type is Enum && x.0@ == k {
            assert(enum_lookup(es.push(x), k) == Option::Some(x.1));
        } else {
            assert(es.push(x).drop_first() =~= es);
            assert(enum_lookup(es.push(x), k) == enum_lookup(es, k));
        }
    } else {
        assert(es.push(x)[0] == es[0]);
        if es[0].1.str_type is Enum && es[0].0@ == k {
            assert(enum_lookup(es.push(x), k) == Option::Some(es[0].1));
            assert(enum_lookup(es, k) == Option::Some(es[0].1));
        } else {
            assert(es.push(x).drop_first() =~= es.drop_first().push(x));
            lemma_enum_lookup_push(es.drop_first(), x, k);
            assert(enum_lookup(es.push(x), k) == enum_lookup(es.drop_first().push(x), k));
            assert(enum_lookup(es, k) == enum_lookup(es.drop_first(), k));
        }
    }
}

/// Replaces the builder's structure collection by the resolved one: every
/// complete enum is carried over as it is; every structure fetched from
/// its own source is filed under the identifier its source declares, the
/// last fetch winning; nothing else survives — in particular, an
/// unresolved placeholder that no fetch matched is gone.
pub fn resolve_structures(
    structures: &StructMap,
    fetched: Vec<Option<(String, StructureInfo)>>,
) -> (r: StructMap)
    ensures
        forall|k: Seq<char>|
            #[trigger] r.spec_contains(k) <==> (enum_key(structures.entries@, k) || fetched_key(
                fetched@,
                k,
            )),
        forall|k: Seq<char>|
            fetched_key(fetched@, k) ==> #[trigger] r.spec_get(k) == last_fetched(fetched@, k),
        forall|k: Seq<char>|
            !fetched_key(fetched@, k) && enum_key(structures.entries@, k) ==> ((
            #[trigger] r.spec_get(k)) matches Some(v) && same_structure(
                v,
                enum_lookup(structures.entries@, k)->Some_0,
            )),
{
    let ghost es = structures.entries@;
    let ghost all = fetched@;
    let mut filled = StructMap::new();
    let mut i: usize = 0;
    while i < structures.entries.len()
        invariant
            i <= es.len(),
            es == structures.entries@,
            forall|k: Seq<char>|
                #[trigger] filled.spec_contains(k) <==> enum_key(es.take(i as int), k),
            forall|k: Seq<char>|
                enum_key(es.take(i as int), k) ==> ((#[trigger] filled.spec_get(k)) matches Some(v)
                    && same_structure(v, enum_lookup(es.take(i as int), k)->Some_0)),
        decreases es.len() - i,
    {
        proof {
            assert(es.take(i + 1) =~= es.take(i as int).push(es[i as int]));
        }
        let is_enum = match structures.entries[i].1.str_type {
            StructureType::Enum => true,
            StructureType::Struct => false,
            StructureType::Unknown => false,
        };
        if is_enum {
            let absent = match filled.get(structures.entries[i].0.as_str()) {
                None => true,
                Some(_) => false,
            };
            if absent {
                let ghost pre = filled;
                let key = structures.entries[i].0.clone();
                let dup = structures.entries[i].1.duplicate();
                let ghost dupv = dup;
                filled.insert(key, dup);
                proof {
                    let ghost kv = es[i as int].0@;
                    assert(same_structure(dupv, es[i as int].1));
                    assert forall|k: Seq<char>|
                        #[trigger] filled.spec_contains(k) <==> enum_key(es.take(i + 1), k) by {
                        lemma_enum_lookup_push(es.take(i as int), es[i as int], k);
                        assert(filled.spec_get(k) == filled.spec_get(k));
                        assert(pre.spec_contains(k) <==> enum_key(es.take(i as int), k));
                    }
                    assert forall|k: Seq<char>|
                        enum_key(es.take(i + 1), k) implies ((
                    #[trigger] filled.spec_get(k)) matches Some(v) && same_structure(
                        v,
                        enum_lookup(es.take(i + 1), k)->Some_0,
                    )) by {
                        lemma_enum_lookup_push(es.take(i as int), es[i as int], k);
                        assert(filled.spec_get(k) == filled.spec_get(k));
                        assert(pre.spec_contains(k) <==> enum_key(es.take(i as int), k));
                        if k == kv {
                            assert(!pre.spec_contains(k));
                            assert(!enum_key(es.take(i as int), k));
                            assert(enum_lookup(es.take(i + 1), k) == Option::Some(
                                es[i as int].1,
                            ));
                            assert(filled.spec_get(k) == Option::Some(dupv));
                            assert((filled.spec_get(k)) matches Some(v) && same_structure(
                                v,
                                enum_lookup(es.take(i + 1), k)->Some_0,
                            ));
                        } else {
                            assert(enum_key(es.take(i as int), k));
                            assert(pre.spec_get(k) matches Some(v) && same_structure(
                                v,
                                enum_lookup(es.take(i as int), k)->Some_0,
                            ));
                            assert(filled.spec_get(k) == pre.spec_get(k));
                            assert(enum_lookup(es.take(i + 1), k) == enum_lookup(
                                es.take(i as int),
                                k,
                            ));
                            assert((filled.spec_get(k)) matches Some(v) && same_structure(
                                v,
                                enum_lookup(es.take(i + 1), k)->Some_0,
                            ));
                        }
                    }
                }
            } else {
                proof {
                    assert forall|k: Seq<char>|
                        #[trigger] filled.spec_contains(k) <==> enum_key(es.take(i + 1), k) by {
                        lemma_enum_lookup_push(es.take(i as int), es[i as int], k);
                    }
                    assert forall|k: Seq<char>|
                        enum_key(es.take(i + 1), k) implies ((
                    #[trigger] filled.spec_get(k)) matches Some(v) && same_structure(
                        v,
                        enum_lookup(es.take(i + 1), k)->Some_0,
                    )) by {
                        lemma_enum_lookup_push(es.take(i as int), es[i as int], k);
                        assert(filled.spec_contains(k) <==> enum_key(es.take(i as int), k));
                        if k == es[i as int].0@ {
                            assert(filled.spec_contains(k));
                        }
                        if enum_key(es.take(i as int), k) {
                            assert(filled.spec_get(k) matches Some(v) && same_structure(
                                v,
                                enum_lookup(es.take(i as int), k)->Some_0,
                            ));
                            assert(enum_lookup(es.take(i + 1), k) == enum_lookup(
                                es.take(i as int),
                                k,
                            ));
                        }
                    }
                }
            }
        } else {
            proof {
                assert forall|k: Seq<char>|
                    #[trigger] filled.spec_contains(k) <==> enum_key(es.take(i + 1), k) by {
                    lemma_enum_lookup_push(es.take(i as int), es[i as int], k);
                }
                assert forall|k: Seq<char>|
                    enum_key(es.take(i + 1), k) implies ((#[trigger] filled.spec_get(
                        k,
                    )) matches Some(v) && same_structure(
                        v,
                        enum_lookup(es.take(i + 1), k)->Some_0,
                    )) by {
                    lemma_enum_lookup_push(es.take(i as int), es[i as int], k);
                }
            }
        }
        i = i + 1;
    }
    proof {
        assert(es.take(es.len() as int) =~= es);
    }
    let mut rest = fetched;
    let ghost mut done: int = 0;
    while rest.len() > 0
        invariant
            0 <= done <= all.len(),
            rest@ == all.skip(done),
            forall|k: Seq<char>|
                #[trigger] filled.spec_contains(k) <==> (enum_key(es, k) || fetched_key(
                    all.take(done),
                    k,
                )),
            forall|k: Seq<char>|
                fetched_key(all.take(done), k) ==> #[trigger] filled.spec_get(k)
                    == last_fetched(all.take(done), k),
            forall|k: Seq<char>|
                !fetched_key(all.take(done), k) && enum_key(es, k) ==> ((
                #[trigger] filled.spec_get(k)) matches Some(v) && same_structure(
                    v,
                    enum_lookup(es, k)->Some_0,
                )),
        decreases rest@.len(),
    {
        let item = rest.remove(0);
        proof {
            assert(all.skip(done)[0] == all[done]);
            assert(all.skip(done).drop_first() =~= all.skip(done + 1));
            assert(all.take(done + 1).drop_last() =~= all.take(done));
            assert(all.take(done + 1).last() == all[done]);
            assert forall|k: Seq<char>|
                fetched_key(all.take(done + 1), k) <==> (fetched_key(all.take(done), k) || (
                all[done] matches Some(p) && p.0@ == k)) by {
                if fetched_key(all.take(done), k) {
                    let j = choose|j: int|
                        0 <= j < done && ((#[trigger] all.take(done)[j]) matches Some(p)
                            && p.0@ == k);
                    assert(all.take(done + 1)[j] == all.take(done)[j]);
                }
                if all[done] matches Some(p) && p.0@ == k {
                    assert(all.take(done + 1)[done as int] == all[done]);
                }
                if fetched_key(all.take(done + 1), k) {
                    let j = choose|j: int|
                        0 <= j < done + 1 && ((#[trigger] all.take(done + 1)[j]) matches Some(p)
                            && p.0@ == k);
                    if j < done {
                        assert(all.take(done)[j] == all.take(done + 1)[j]);
                    }
                }
            }
        }
        match item {
            Some((id, s)) => {
                let ghost pre = filled;
                let ghost idv = id@;
                let ghost sv = s;
                filled.insert(id, s);
                proof {
                    assert((all[done] matches Some(p) && p.0@ == idv && p.1 == sv));
                    assert forall|k: Seq<char>|
                        #[trigger] filled.spec_contains(k) <==> (enum_key(es, k) || fetched_key(
                            all.take(done + 1),
                            k,
                        )) by {
                        assert(filled.spec_get(k) == filled.spec_get(k));
                        assert(pre.spec_contains(k) <==> (enum_key(es, k) || fetched_key(
                            all.take(done),
                            k,
                        )));
                    }
                    assert forall|k: Seq<char>|
                        fetched_key(all.take(done + 1), k) implies #[trigger] filled.spec_get(k)
                        == last_fetched(all.take(done + 1), k) by {
                        if k == idv {
                            assert(last_fetched(all.take(done + 1), k) == Option::Some(sv));
                        } else {
                            assert(last_fetched(all.take(done + 1), k) == last_fetched(
                                all.take(done),
                                k,
                            ));
                            assert(pre.spec_contains(k) <==> (enum_key(es, k) || fetched_key(
                                all.take(done),
                                k,
                            )));
                            if fetched_key(all.take(done), k) {
                                assert(pre.spec_get(k) == last_fetched(all.take(done), k));
                            }
                        }
                    }
                    assert forall|k: Seq<char>|
                        !fetched_key(all.take(done + 1), k) && enum_key(es, k) implies ((
                    #[trigger] filled.spec_get(k)) matches Some(v) && same_structure(
                        v,
                        enum_lookup(es, k)->Some_0,
                    )) by {
                        assert(k != idv);
                        assert(!fetched_key(all.take(done), k));
                        assert(pre.spec_get(k) matches Some(v) && same_structure(
                            v,
                            enum_lookup(es, k)->Some_0,
                        ));
                    }
                }
            },
            None => {
                proof {
                    assert forall|k: Seq<char>|
                        fetched_key(all.take(done + 1), k) implies last_fetched(
                        all.take(done + 1),
                        k,
                    ) == last_fetched(all.take(done), k) by {}
                }
            },
        }
        proof {
            done = done + 1;
        }
    }
    proof {
        assert(all.skip(done) =~= rest@);
        assert(rest@.len() == 0);
        assert(all.take(done) =~= all);
    }
    filled
}

} // verus!
