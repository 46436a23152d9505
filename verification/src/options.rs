//! The filter-options discovery query: the distinct values each
//! filterable field takes over a session's entries.
use vstd::prelude::*;

verus! {

use vstd::string::*;
use crate::models::FilterOptionsResponse;
use crate::parser::{Entry, EntryV, level_symbol};
use crate::text::str_eq;

/// No two members are equal.
pub open spec fn distinct_seq<A>(s: Seq<A>) -> bool {
    forall|i: int, j: int| 0 <= i < j < s.len() ==> s[i] != s[j]
}

/// Membership in a pushed sequence is membership in the old one or
/// equality with the new element.
proof fn lemma_push_contains<A>(s: Seq<A>, x: A)
    ensures
        forall|c: A| #[trigger] s.push(x).contains(c) <==> (s.contains(c) || c == x),
{
    assert forall|c: A| #[trigger] s.push(x).contains(c) implies (s.contains(c) || c == x) by {
        let i = choose|i: int| 0 <= i < s.push(x).len() && s.push(x)[i] == c;
        if i < s.len() {
            assert(s[i] == c);
        }
    }
    assert forall|c: A| (s.contains(c) || c == x) implies #[trigger] s.push(x).contains(c) by {
        if s.contains(c) {
            let i = choose|i: int| 0 <= i < s.len() && s[i] == c;
            assert(s.push(x)[i] == c);
        } else {
            assert(s.push(x)[s.len() as int] == c);
        }
    }
}

fn vec_contains_str(v: &Vec<String>, s: &str) -> (r: bool)
    ensures
        r == v.deep_view().contains(s@),
{
    let n = v.len();
    let mut i: usize = 0;
    while i < n
        invariant
            0 <= i <= n,
            n == v@.len(),
            forall|k: int| 0 <= k < i ==> v.deep_view()[k] != s@,
        decreases n - i,
    {
        proof {
            assert(v.deep_view()[i as int] == v@[i as int]@);
        }
        if str_eq(v[i].as_str(), s) {
            proof {
                assert(v.deep_view()[i as int] == s@);
            }
            return true;
        }
        i = i + 1;
    }
    false
}

fn vec_contains_u32(v: &Vec<u32>, x: u32) -> (r: bool)
    ensures
        r == v@.contains(x),
{
    let n = v.len();
    let mut i: usize = 0;
    while i < n
        invariant
            0 <= i <= n,
            n == v@.len(),
            forall|k: int| 0 <= k < i ==> v@[k] != x,
        decreases n - i,
    {
        if v[i] == x {
            return true;
        }
        i = i + 1;
    }
    false
}

fn collect_categories(entries: &Vec<Entry>) -> (r: Vec<String>)
    ensures
        distinct_seq(r.deep_view()),
        forall|c: Seq<char>|
            #[trigger] r.deep_view().contains(c) <==> (exists|k: int|
                0 <= k < entries.deep_view().len() && (#[trigger] entries.deep_view()[k]).category
                    == c),
{
    let n = entries.len();
    let mut out: Vec<String> = Vec::new();
    let mut i: usize = 0;
    while i < n
        invariant
            0 <= i <= n,
            n == entries@.len(),
            distinct_seq(out.deep_view()),
            forall|c: Seq<char>|
                #[trigger] out.deep_view().contains(c) <==> (exists|k: int|
                    0 <= k < i && (#[trigger] entries.deep_view()[k]).category == c),
        decreases n - i,
    {
        let e = &entries[i];
        proof {
            assert(entries.deep_view()[i as int] == e.deep_view());
        }
        let ghost prev = out.deep_view();
        let present = vec_contains_str(&out, e.category.as_str());
        if !present {
            out.push(e.category.clone());
            proof {
                assert(out.deep_view() =~= prev.push(e.category@));
                lemma_push_contains(prev, e.category@);
            }
        }
        proof {
            assert forall|c: Seq<char>| #[trigger] out.deep_view().contains(c) implies (
            exists|k: int|
                0 <= k < i + 1 && (#[trigger] entries.deep_view()[k]).category == c) by {
                if c == e.category@ {
                    assert(entries.deep_view()[i as int].category == c);
                } else {
                    assert(prev.contains(c));
                }
            }
            assert forall|c: Seq<char>|
                (exists|k: int|
                    0 <= k < i + 1 && (#[trigger] entries.deep_view()[k]).category
                        == c) implies #[trigger] out.deep_view().contains(c) by {
                let k = choose|k: int|
                    0 <= k < i + 1 && (#[trigger] entries.deep_view()[k]).category == c;
                if k == i {
                    if present {
                        assert(prev.contains(c));
                    }
                }
            }
        }
        i = i + 1;
    }
    out
}

fn collect_levels(entries: &Vec<Entry>) -> (r: Vec<String>)
    ensures
        distinct_seq(r.deep_view()),
        forall|c: Seq<char>|
            #[trigger] r.deep_view().contains(c) <==> (exists|k: int|
                0 <= k < entries.deep_view().len() && level_symbol(
                    (#[trigger] entries.deep_view()[k]).level,
                ) == c),
{
    let n = entries.len();
    let mut out: Vec<String> = Vec::new();
    let mut i: usize = 0;
    while i < n
        invariant
            0 <= i <= n,
            n == entries@.len(),
            distinct_seq(out.deep_view()),
            forall|c: Seq<char>|
                #[trigger] out.deep_view().contains(c) <==> (exists|k: int|
                    0 <= k < i && level_symbol((#[trigger] entries.deep_view()[k]).level) == c),
        decreases n - i,
    {
        let e = &entries[i];
        proof {
            assert(entries.deep_view()[i as int] == e.deep_view());
        }
        let name = e.level.name();
        let ghost prev = out.deep_view();
        let present = vec_contains_str(&out, name);
        if !present {
            out.push(String::from_str(name));
            proof {
                assert(out.deep_view() =~= prev.push(name@));
                lemma_push_contains(prev, name@);
            }
        }
        proof {
            assert forall|c: Seq<char>| #[trigger] out.deep_view().contains(c) implies (
            exists|k: int|
                0 <= k < i + 1 && level_symbol((#[trigger] entries.deep_view()[k]).level)
                    == c) by {
                if c == name@ {
                    assert(level_symbol(entries.deep_view()[i as int].level) == c);
                } else {
                    assert(prev.contains(c));
                }
            }
            assert forall|c: Seq<char>|
                (exists|k: int|
                    0 <= k < i + 1 && level_symbol((#[trigger] entries.deep_view()[k]).level)
                        == c) implies #[trigger] out.deep_view().contains(c) by {
                let k = choose|k: int|
                    0 <= k < i + 1 && level_symbol((#[trigger] entries.deep_view()[k]).level) == c;
                if k == i {
                    if present {
                        assert(prev.contains(c));
                    }
                }
            }
        }
        i = i + 1;
    }
    out
}

fn collect_pids(entries: &Vec<Entry>) -> (r: Vec<u32>)
    ensures
        distinct_seq(r@),
        forall|p: u32|
            #[trigger] r@.contains(p) <==> (exists|k: int|
                0 <= k < entries.deep_view().len() && (#[trigger] entries.deep_view()[k]).pid
                    == p),
{
    let n = entries.len();
    let mut out: Vec<u32> = Vec::new();
    let mut i: usize = 0;
    while i < n
        invariant
            0 <= i <= n,
            n == entries@.len(),
            distinct_seq(out@),
            forall|p: u32|
                #[trigger] out@.contains(p) <==> (exists|k: int|
                    0 <= k < i && (#[trigger] entries.deep_view()[k]).pid == p),
        decreases n - i,
    {
        let e = &entries[i];
        proof {
            assert(entries.deep_view()[i as int] == e.deep_view());
        }
        let ghost prev = out@;
        let present = vec_contains_u32(&out, e.pid);
        if !present {
            out.push(e.pid);
            proof {
                assert(out@ =~= prev.push(e.pid));
                lemma_push_contains(prev, e.pid);
            }
        }
        proof {
            assert forall|p: u32| #[trigger] out@.contains(p) implies (exists|k: int|
                0 <= k < i + 1 && (#[trigger] entries.deep_view()[k]).pid == p) by {
                if p == e.pid {
                    assert(entries.deep_view()[i as int].pid == p);
                } else {
                    assert(prev.contains(p));
                }
            }
            assert forall|p: u32|
                (exists|k: int|
                    0 <= k < i + 1 && (#[trigger] entries.deep_view()[k]).pid
                        == p) implies #[trigger] out@.contains(p) by {
                let k = choose|k: int|
                    0 <= k < i + 1 && (#[trigger] entries.deep_view()[k]).pid == p;
                if k == i {
                    if present {
                        assert(prev.contains(p));
                    }
                }
            }
        }
        i = i + 1;
    }
    out
}

fn collect_threads(entries: &Vec<Entry>) -> (r: Vec<String>)
    ensures
        distinct_seq(r.deep_view()),
        forall|c: Seq<char>|
            #[trigger] r.deep_view().contains(c) <==> (exists|k: int|
                0 <= k < entries.deep_view().len() && (#[trigger] entries.deep_view()[k]).thread
                    == c),
{
    let n = entries.len();
    let mut out: Vec<String> = Vec::new();
    let mut i: usize = 0;
    while i < n
        invariant
            0 <= i <= n,
            n == entries@.len(),
            distinct_seq(out.deep_view()),
            forall|c: Seq<char>|
                #[trigger] out.deep_view().contains(c) <==> (exists|k: int|
                    0 <= k < i && (#[trigger] entries.deep_view()[k]).thread == c),
        decreases n - i,
    {
        let e = &entries[i];
        proof {
            assert(entries.deep_view()[i as int] == e.deep_view());
        }
        let ghost prev = out.deep_view();
        let present = vec_contains_str(&out, e.thread.as_str());
        if !present {
            out.push(e.thread.clone());
            proof {
                assert(out.deep_view() =~= prev.push(e.thread@));
                lemma_push_contains(prev, e.thread@);
            }
        }
        proof {
            assert forall|c: Seq<char>| #[trigger] out.deep_view().contains(c) implies (
            exists|k: int|
                0 <= k < i + 1 && (#[trigger] entries.deep_view()[k]).thread == c) by {
                if c == e.thread@ {
                    assert(entries.deep_view()[i as int].thread == c);
                } else {
                    assert(prev.contains(c));
                }
            }
            assert forall|c: Seq<char>|
                (exists|k: int|
                    0 <= k < i + 1 && (#[trigger] entries.deep_view()[k]).thread
                        == c) implies #[trigger] out.deep_view().contains(c) by {
                let k = choose|k: int|
                    0 <= k < i + 1 && (#[trigger] entries.deep_view()[k]).thread == c;
                if k == i {
                    if present {
                        assert(prev.contains(c));
                    }
                }
            }
        }
        i = i + 1;
    }
    out
}

fn collect_objects(entries: &Vec<Entry>) -> (r: Vec<String>)
    ensures
        distinct_seq(r.deep_view()),
        forall|c: Seq<char>|
            #[trigger] r.deep_view().contains(c) <==> (exists|k: int|
                0 <= k < entries.deep_view().len() && (#[trigger] entries.deep_view()[k]).object
                    == Some(c)),
{
    let n = entries.len();
    let mut out: Vec<String> = Vec::new();
    let mut i: usize = 0;
    while i < n
        invariant
            0 <= i <= n,
            n == entries@.len(),
            distinct_seq(out.deep_view()),
            forall|c: Seq<char>|
                #[trigger] out.deep_view().contains(c) <==> (exists|k: int|
                    0 <= k < i && (#[trigger] entries.deep_view()[k]).object == Some(c)),
        decreases n - i,
    {
        let e = &entries[i];
        proof {
            assert(entries.deep_view()[i as int] == e.deep_view());
        }
        let ghost prev = out.deep_view();
        match &e.object {
            Some(obj) => {
                let present = vec_contains_str(&out, obj.as_str());
                if !present {
                    out.push(obj.clone());
                    proof {
                        assert(out.deep_view() =~= prev.push(obj@));
                        lemma_push_contains(prev, obj@);
                    }
                }
                proof {
                    assert(entries.deep_view()[i as int].object == Some(obj@));
                    assert forall|c: Seq<char>| #[trigger] out.deep_view().contains(c) implies (
                    exists|k: int|
                        0 <= k < i + 1 && (#[trigger] entries.deep_view()[k]).object == Some(
                            c,
                        )) by {
                        if c == obj@ {
                            assert(entries.deep_view()[i as int].object == Some(c));
                        } else {
                            assert(prev.contains(c));
                        }
                    }
                    assert forall|c: Seq<char>|
                        (exists|k: int|
                            0 <= k < i + 1 && (#[trigger] entries.deep_view()[k]).object == Some(
                                c,
                            )) implies #[trigger] out.deep_view().contains(c) by {
                        let k = choose|k: int|
                            0 <= k < i + 1 && (#[trigger] entries.deep_view()[k]).object == Some(
                                c,
                            );
                        if k == i {
                            if present {
                                assert(prev.contains(c));
                            }
                        }
                    }
                }
            },
            None => {
                proof {
                    assert(entries.deep_view()[i as int].object is None);
                    assert forall|c: Seq<char>|
                        (exists|k: int|
                            0 <= k < i + 1 && (#[trigger] entries.deep_view()[k]).object == Some(
                                c,
                            )) implies #[trigger] out.deep_view().contains(c) by {
                        let k = choose|k: int|
                            0 <= k < i + 1 && (#[trigger] entries.deep_view()[k]).object == Some(
                                c,
                            );
                        assert(k < i);
                    }
                }
            },
        }
        i = i + 1;
    }
    out
}

/// The filter options of a session: each filterable field's values over
/// the entries, deduplicated. A session with no entries is answered like
/// any other, with five empty lists.
pub fn get_filter_options(entries: &Vec<Entry>) -> (resp: FilterOptionsResponse)
    ensures
        ({
            let es = entries.deep_view();
            &&& distinct_seq(resp.categories.deep_view())
            &&& (forall|c: Seq<char>|
                #[trigger] resp.categories.deep_view().contains(c) <==> (exists|k: int|
                    0 <= k < es.len() && (#[trigger] es[k]).category == c))
            &&& distinct_seq(resp.levels.deep_view())
            &&& (forall|c: Seq<char>|
                #[trigger] resp.levels.deep_view().contains(c) <==> (exists|k: int|
                    0 <= k < es.len() && level_symbol((#[trigger] es[k]).level) == c))
            &&& distinct_seq(resp.pids@)
            &&& (forall|p: u32|
                #[trigger] resp.pids@.contains(p) <==> (exists|k: int|
                    0 <= k < es.len() && (#[trigger] es[k]).pid == p))
            &&& distinct_seq(resp.threads.deep_view())
            &&& (forall|c: Seq<char>|
                #[trigger] resp.threads.deep_view().contains(c) <==> (exists|k: int|
                    0 <= k < es.len() && (#[trigger] es[k]).thread == c))
            &&& distinct_seq(resp.objects.deep_view())
            &&& (forall|c: Seq<char>|
                #[trigger] resp.objects.deep_view().contains(c) <==> (exists|k: int|
                    0 <= k < es.len() && (#[trigger] es[k]).object == Some(c)))
        }),
{
    FilterOptionsResponse {
        categories: collect_categories(entries),
        levels: collect_levels(entries),
        pids: collect_pids(entries),
        threads: collect_threads(entries),
        objects: collect_objects(entries),
    }
}

} // verus!
