//! The filter engine and paginator: evaluate a conjunctive filter over a
//! session's entries, in order, and slice the matches into pages.
use vstd::prelude::*;

verus! {

use vstd::seq_lib::*;
use crate::models::{FilterV, LogFilter, LogResponse, SerializableEntry, serial_of};
use crate::parser::{Entry, EntryV, level_symbol};
use crate::pattern::{regex_compiles, regex_match, regex_matches};
use crate::text::{str_eq, trim_ws, trim_ws_x};

/// A nanosecond timestamp in the unit a query compares in.
pub open spec fn ts_in_unit(ns: u64, micro: bool) -> u64 {
    if micro {
        (ns / 1000) as u64
    } else {
        (ns / 1000000) as u64
    }
}

/// Nanoseconds to milliseconds.
pub fn to_milliseconds(ns: u64) -> (r: u64)
    ensures
        r == ns / 1000000,
{
    ns / 1_000_000
}

/// Nanoseconds to microseconds.
pub fn to_microseconds(ns: u64) -> (r: u64)
    ensures
        r == ns / 1000,
{
    ns / 1_000
}

/// The level criterion: the entry's level symbol equals the requested name.
pub open spec fn level_ok(f: FilterV, e: EntryV) -> bool {
    match f.level {
        Some(lv) => lv == level_symbol(e.level),
        None => true,
    }
}

/// The category criterion: some accepted name equals the entry's category
/// up to surrounding whitespace.
pub open spec fn categories_ok(f: FilterV, e: EntryV) -> bool {
    f.categories.len() == 0 || exists|i: int|
        0 <= i < f.categories.len() && trim_ws(#[trigger] f.categories[i]) == trim_ws(e.category)
}

/// A regex criterion: restricts only when the pattern compiles; a pattern
/// that does not compile restricts nothing.
pub open spec fn regex_ok(pat: Option<Seq<char>>, text: Seq<char>) -> bool {
    match pat {
        Some(p) => regex_compiles(p) ==> regex_matches(p, text),
        None => true,
    }
}

pub open spec fn pid_ok(f: FilterV, e: EntryV) -> bool {
    match f.pid {
        Some(p) => e.pid == p,
        None => true,
    }
}

pub open spec fn thread_ok(f: FilterV, e: EntryV) -> bool {
    match f.thread {
        Some(t) => e.thread == t,
        None => true,
    }
}

/// The object criterion: an entry without an object never matches a
/// requested object.
pub open spec fn object_ok(f: FilterV, e: EntryV) -> bool {
    match f.object {
        Some(o) => match e.object {
            Some(eo) => eo == o,
            None => false,
        },
        None => true,
    }
}

/// The timestamp criteria, inclusive on both bounds, compared in the unit
/// the query selects; skipped entirely when no bound is present.
pub open spec fn time_ok(f: FilterV, e: EntryV) -> bool {
    if f.min_timestamp is Some || f.max_timestamp is Some {
        let t = ts_in_unit(e.ts, f.use_microseconds);
        (match f.min_timestamp {
            Some(mn) => t >= mn,
            None => true,
        }) && (match f.max_timestamp {
            Some(mx) => t <= mx,
            None => true,
        })
    } else {
        true
    }
}

/// The whole conjunctive filter: every present criterion must hold.
pub open spec fn entry_matches(f: FilterV, e: EntryV) -> bool {
    level_ok(f, e) && categories_ok(f, e) && regex_ok(f.message_regex, e.message) && pid_ok(f, e)
        && thread_ok(f, e) && object_ok(f, e) && regex_ok(f.function_regex, e.function) && time_ok(
        f,
        e,
    )
}

/// Whether a regex criterion's pattern compiles. A pattern that does not
/// restricts nothing; callers use this to surface the degraded criterion
/// as a diagnosable condition.
pub fn pattern_compiles(pattern: &str) -> (r: bool)
    ensures
        r == regex_compiles(pattern@),
{
    match regex_match(pattern, "") {
        Some(_) => true,
        None => false,
    }
}

/// Evaluate the filter against one entry.
pub fn matches_entry(filter: &LogFilter, e: &Entry) -> (r: bool)
    ensures
        r == entry_matches(filter.deep_view(), e.deep_view()),
{
    match &filter.level {
        Some(lv) => {
            if !str_eq(lv.as_str(), e.level.name()) {
                return false;
            }
        },
        None => {},
    }
    if filter.categories.len() > 0 {
        let et = trim_ws_x(e.category.as_str());
        let mut found = false;
        let mut i: usize = 0;
        while i < filter.categories.len() && !found
            invariant
                0 <= i <= filter.categories@.len(),
                et@ == trim_ws(e.category@),
                found ==> exists|k: int|
                    0 <= k < filter.categories.deep_view().len() && trim_ws(
                        #[trigger] filter.categories.deep_view()[k],
                    ) == trim_ws(e.category@),
                !found ==> forall|k: int|
                    0 <= k < i ==> trim_ws(#[trigger] filter.categories.deep_view()[k]) != trim_ws(
                        e.category@,
                    ),
            decreases filter.categories@.len() - i,
        {
            let hit = str_eq(trim_ws_x(filter.categories[i].as_str()), et);
            proof {
                assert(filter.categories.deep_view()[i as int] == filter.categories@[i as int]@);
                assert(trim_ws(filter.categories.deep_view()[i as int]) == trim_ws(
                    filter.categories@[i as int]@,
                ));
            }
            if hit {
                found = true;
            }
            i = i + 1;
        }
        if !found {
            return false;
        }
    }
    match &filter.message_regex {
        Some(p) => {
            match regex_match(p.as_str(), e.message.as_str()) {
                Some(b) => {
                    if !b {
                        return false;
                    }
                },
                None => {},
            }
        },
        None => {},
    }
    match filter.pid {
        Some(p) => {
            if e.pid != p {
                return false;
            }
        },
        None => {},
    }
    match &filter.thread {
        Some(t) => {
            if !str_eq(t.as_str(), e.thread.as_str()) {
                return false;
            }
        },
        None => {},
    }
    match &filter.object {
        Some(o) => {
            match &e.object {
                Some(eo) => {
                    if !str_eq(eo.as_str(), o.as_str()) {
                        return false;
                    }
                },
                None => {
                    return false;
                },
            }
        },
        None => {},
    }
    match &filter.function_regex {
        Some(p) => {
            match regex_match(p.as_str(), e.function.as_str()) {
                Some(b) => {
                    if !b {
                        return false;
                    }
                },
                None => {},
            }
        },
        None => {},
    }
    if filter.min_timestamp.is_some() || filter.max_timestamp.is_some() {
        let t = if filter.use_microseconds {
            to_microseconds(e.ts)
        } else {
            to_milliseconds(e.ts)
        };
        match filter.min_timestamp {
            Some(mn) => {
                if t < mn {
                    return false;
                }
            },
            None => {},
        }
        match filter.max_timestamp {
            Some(mx) => {
                if t > mx {
                    return false;
                }
            },
            None => {},
        }
    }
    true
}

/// The ordered subsequence of entries matching every present criterion.
pub fn filter_entries<'a>(entries: &'a Vec<Entry>, filter: &LogFilter) -> (r: Vec<&'a Entry>)
    ensures
        r.deep_view() == entries.deep_view().filter(
            |e: EntryV| entry_matches(filter.deep_view(), e),
        ),
{
    broadcast use Seq::lemma_filter_push;

    let ghost pred = |e: EntryV| entry_matches(filter.deep_view(), e);
    let mut out: Vec<&'a Entry> = Vec::new();
    proof {
        reveal(Seq::filter);
        assert(entries.deep_view().take(0) =~= Seq::<EntryV>::empty());
        assert(out.deep_view() =~= Seq::<EntryV>::empty().filter(pred));
    }
    let n = entries.len();
    let mut i: usize = 0;
    while i < n
        invariant
            0 <= i <= n,
            n == entries@.len(),
            out.deep_view() == entries.deep_view().take(i as int).filter(
                |e: EntryV| entry_matches(filter.deep_view(), e),
            ),
        decreases n - i,
    {
        let ghost prev = out.deep_view();
        let e = &entries[i];
        if matches_entry(filter, e) {
            out.push(e);
            proof {
                assert(out.deep_view() =~= prev.push(e.deep_view()));
            }
        }
        proof {
            assert(entries.deep_view().take(i + 1) =~= entries.deep_view().take(i as int).push(
                entries.deep_view()[i as int],
            ));
            assert(entries.deep_view()[i as int] == e.deep_view());
            entries.deep_view().take(i as int).lemma_filter_push(
                e.deep_view(),
                |e2: EntryV| entry_matches(filter.deep_view(), e2),
            );
        }
        i = i + 1;
    }
    proof {
        assert(entries.deep_view().take(n as int) =~= entries.deep_view());
    }
    out
}

/// A sequence whose members all satisfy the predicate filters to itself.
pub proof fn lemma_filter_all<A>(s: Seq<A>, pred: spec_fn(A) -> bool)
    requires
        forall|i: int| 0 <= i < s.len() ==> pred(#[trigger] s[i]),
    ensures
        s.filter(pred) == s,
    decreases s.len(),
{
    reveal(Seq::filter);
    if s.len() > 0 {
        lemma_filter_all(s.drop_last(), pred);
        assert(s.drop_last().filter(pred).push(s.last()) =~= s);
    }
}

/// Filtering is idempotent: the same filter applied twice to a sequence
/// yields what one application yields.
pub proof fn lemma_filter_idempotent(entries: Seq<EntryV>, f: FilterV)
    ensures
        entries.filter(|e: EntryV| entry_matches(f, e)).filter(|e: EntryV| entry_matches(f, e))
            == entries.filter(|e: EntryV| entry_matches(f, e)),
{
    broadcast use Seq::lemma_filter_pred;

    let pred = |e: EntryV| entry_matches(f, e);
    lemma_filter_all(entries.filter(pred), pred);
}

/// A filter with no criterion set matches every entry, so filtering
/// returns the whole sequence, order preserved.
pub proof fn lemma_filter_no_criteria(entries: Seq<EntryV>, f: FilterV)
    requires
        f.level is None,
        f.categories.len() == 0,
        f.message_regex is None,
        f.pid is None,
        f.thread is None,
        f.object is None,
        f.function_regex is None,
        f.min_timestamp is None,
        f.max_timestamp is None,
    ensures
        entries.filter(|e: EntryV| entry_matches(f, e)) == entries,
{
    let pred = |e: EntryV| entry_matches(f, e);
    assert(forall|e: EntryV| #[trigger] pred(e));
    lemma_filter_all(entries, pred);
}

/// Number of pages needed for `total` entries at `size` per page.
pub open spec fn spec_total_pages(total: nat, size: nat) -> nat
    recommends
        size >= 1,
{
    if total % size == 0 {
        total / size
    } else {
        total / size + 1
    }
}

/// One 1-based page of a sequence: entries `(page-1)*size` up to
/// `page*size`, clipped to the sequence.
pub open spec fn page_of<A>(s: Seq<A>, size: nat, page: nat) -> Seq<A>
    recommends
        size >= 1,
        page >= 1,
{
    let start = if (page - 1) * size <= s.len() {
        (page - 1) * size
    } else {
        s.len() as int
    };
    let end = if (page - 1) * size + size <= s.len() {
        (page - 1) * size + size
    } else {
        s.len() as int
    };
    s.subrange(start, end)
}

/// Pages 1 through `n`, concatenated in order.
pub open spec fn pages_concat<A>(s: Seq<A>, size: nat, n: nat) -> Seq<A>
    decreases n,
{
    if n == 0 {
        Seq::empty()
    } else {
        pages_concat(s, size, (n - 1) as nat) + page_of(s, size, n)
    }
}

proof fn lemma_pages_prefix<A>(s: Seq<A>, size: nat, n: nat)
    requires
        size >= 1,
    ensures
        pages_concat(s, size, n) =~= s.take(
            if n * size <= s.len() {
                (n * size) as int
            } else {
                s.len() as int
            },
        ),
    decreases n,
{
    if n > 0 {
        lemma_pages_prefix(s, size, (n - 1) as nat);
        assert(n * size == (n - 1) * size + size) by (nonlinear_arith)
            requires
                n >= 1,
        ;
        assert((n - 1) * size >= 0) by (nonlinear_arith)
            requires
                n >= 1,
                size >= 1,
        ;
        let prev = if (n - 1) * size <= s.len() {
            ((n - 1) * size) as int
        } else {
            s.len() as int
        };
        let cur = if n * size <= s.len() {
            (n * size) as int
        } else {
            s.len() as int
        };
        assert(pages_concat(s, size, n) == pages_concat(s, size, (n - 1) as nat) + page_of(
            s,
            size,
            n,
        ));
        assert(page_of(s, size, n) == s.subrange(prev, cur));
        assert(s.take(prev) + s.subrange(prev, cur) =~= s.take(cur));
        assert(pages_concat(s, size, (n - 1) as nat) == s.take(prev));
        assert(pages_concat(s, size, n) == s.take(prev) + s.subrange(prev, cur));
        assert(cur == if n * size <= s.len() {
            (n * size) as int
        } else {
            s.len() as int
        });
        assert(pages_concat(s, size, n) =~= s.take(
            if n * size <= s.len() {
                (n * size) as int
            } else {
                s.len() as int
            },
        ));
    } else {
        assert(n * size == 0) by (nonlinear_arith)
            requires
                n == 0,
        ;
        assert(pages_concat(s, size, n) == Seq::<A>::empty());
        assert(s.take(0) =~= Seq::<A>::empty());
    }
}

/// Pagination reconstructs the sequence: concatenating pages
/// `1..=total_pages` yields the full sequence, with no gaps or overlaps.
pub proof fn lemma_pages_cover<A>(s: Seq<A>, size: nat)
    requires
        size >= 1,
    ensures
        pages_concat(s, size, spec_total_pages(s.len(), size)) == s,
{
    let tp = spec_total_pages(s.len(), size);
    lemma_pages_prefix(s, size, tp);
    vstd::arithmetic::div_mod::lemma_fundamental_div_mod(s.len() as int, size as int);
    assert(tp * size >= s.len()) by (nonlinear_arith)
        requires
            size >= 1,
            tp == spec_total_pages(s.len(), size),
            s.len() == size * (s.len() as int / size as int) + s.len() as int % size as int,
            0 <= (s.len() as int % size as int) < size,
    ;
    assert(s.take(s.len() as int) =~= s);
}

/// A page size at least the sequence's length puts everything on the
/// first page.
pub proof fn lemma_single_page_covers<A>(s: Seq<A>, size: nat)
    requires
        size >= 1,
        s.len() <= size,
    ensures
        page_of(s, size, 1) == s,
{
    assert(page_of(s, size, 1) =~= s);
}

/// A query with no criterion set, asking for page one with a page size at
/// least the entry count, returns every entry in the stored order.
pub proof fn lemma_no_criteria_query_returns_all(entries: Seq<EntryV>, f: FilterV)
    requires
        f.level is None,
        f.categories.len() == 0,
        f.message_regex is None,
        f.pid is None,
        f.thread is None,
        f.object is None,
        f.function_regex is None,
        f.min_timestamp is None,
        f.max_timestamp is None,
        1 <= f.per_page,
        entries.len() <= f.per_page,
    ensures
        page_of(
            entries.filter(|e: EntryV| entry_matches(f, e)),
            f.per_page as nat,
            1,
        ) == entries,
{
    lemma_filter_no_criteria(entries, f);
    lemma_single_page_covers(entries, f.per_page as nat);
}

/// A page past the last is empty.
pub proof fn lemma_page_beyond<A>(s: Seq<A>, size: nat, page: nat)
    requires
        size >= 1,
        page > spec_total_pages(s.len(), size),
    ensures
        page_of(s, size, page) == Seq::<A>::empty(),
{
    let tp = spec_total_pages(s.len(), size);
    vstd::arithmetic::div_mod::lemma_fundamental_div_mod(s.len() as int, size as int);
    assert((page - 1) * size >= s.len()) by (nonlinear_arith)
        requires
            size >= 1,
            page >= tp + 1,
            tp == spec_total_pages(s.len(), size),
            s.len() == size * (s.len() as int / size as int) + s.len() as int % size as int,
            0 <= (s.len() as int % size as int) < size,
    ;
    assert(page_of(s, size, page) =~= Seq::<A>::empty());
}

/// Answer a query: filter, then cut the requested page, with the page
/// number clamped to at least 1 and the page size to at most 1000.
pub fn get_logs(entries: &Vec<Entry>, filter: &LogFilter) -> (r: LogResponse)
    requires
        filter.per_page >= 1,
    ensures
        ({
            let fs = entries.deep_view().filter(|e: EntryV| entry_matches(filter.deep_view(), e));
            let page = if filter.page >= 1 {
                filter.page as nat
            } else {
                1
            };
            let size = if filter.per_page <= 1000 {
                filter.per_page as nat
            } else {
                1000
            };
            r.total == fs.len() && r.page == page && r.total_pages == spec_total_pages(
                fs.len(),
                size,
            ) && r.entries.deep_view() == page_of(fs, size, page).map_values(
                |e: EntryV| serial_of(e),
            )
        }),
{
    let filtered = filter_entries(entries, filter);
    let ghost fs = entries.deep_view().filter(|e: EntryV| entry_matches(filter.deep_view(), e));
    let page: usize = if filter.page >= 1 {
        filter.page
    } else {
        1
    };
    let size: usize = if filter.per_page <= 1000 {
        filter.per_page
    } else {
        1000
    };
    let total = filtered.len();
    proof {
        assert(total == fs.len());
    }
    proof {
        vstd::arithmetic::div_mod::lemma_fundamental_div_mod(total as int, size as int);
        if total % size != 0 {
            assert(total / size + 1 <= total) by (nonlinear_arith)
                requires
                    size >= 1,
                    total as int == size * (total as int / size as int) + (total as int
                        % size as int),
                    1 <= (total as int % size as int),
            ;
        }
    }
    let total_pages = total / size + (if total % size == 0 {
        0
    } else {
        1
    });
    let start: usize = if page - 1 > total / size {
        proof {
            vstd::arithmetic::div_mod::lemma_fundamental_div_mod(total as int, size as int);
            assert((page - 1) * size > total) by (nonlinear_arith)
                requires
                    size >= 1,
                    page - 1 >= total / size + 1,
                    total == size * (total as int / size as int) + total as int % size as int,
                    0 <= (total as int % size as int) < size,
            ;
        }
        total
    } else {
        proof {
            vstd::arithmetic::div_mod::lemma_fundamental_div_mod(total as int, size as int);
            assert((page - 1) * size <= total) by (nonlinear_arith)
                requires
                    size >= 1,
                    0 <= page - 1 <= total / size,
                    total == size * (total as int / size as int) + total as int % size as int,
                    0 <= (total as int % size as int) < size,
            ;
        }
        (page - 1) * size
    };
    let end: usize = if total - start < size {
        total
    } else {
        start + size
    };
    let ghost pstart = if (page - 1) * size <= fs.len() {
        (page - 1) * size as int
    } else {
        fs.len() as int
    };
    let ghost pend = if (page - 1) * size + size <= fs.len() {
        (page - 1) * size + size as int
    } else {
        fs.len() as int
    };
    proof {
        assert(start == pstart);
        assert(end == pend);
    }
    let mut out: Vec<SerializableEntry> = Vec::new();
    let mut j: usize = start;
    proof {
        assert(fs.subrange(start as int, j as int).map_values(|e: EntryV| serial_of(e))
            =~= Seq::<crate::models::SerEntryV>::empty());
        assert(out.deep_view() =~= Seq::<crate::models::SerEntryV>::empty());
    }
    while j < end
        invariant
            start <= j <= end,
            end <= filtered@.len(),
            filtered.deep_view() == fs,
            out.deep_view() == fs.subrange(start as int, j as int).map_values(
                |e: EntryV| serial_of(e),
            ),
        decreases end - j,
    {
        let ghost prev = out.deep_view();
        let er: &Entry = filtered[j];
        out.push(SerializableEntry::from_entry(er));
        proof {
            assert(out.deep_view() =~= prev.push(serial_of(er.deep_view())));
            assert(er.deep_view() == fs[j as int]);
            assert(fs.subrange(start as int, j + 1) =~= fs.subrange(start as int, j as int).push(
                fs[j as int],
            ));
            assert(fs.subrange(start as int, j + 1).map_values(|e: EntryV| serial_of(e)) =~= fs
                .subrange(start as int, j as int).map_values(|e: EntryV| serial_of(e)).push(
                serial_of(fs[j as int]),
            ));
        }
        j = j + 1;
    }
    proof {
        assert(out.deep_view() =~= page_of(fs, size as nat, page as nat).map_values(
            |e: EntryV| serial_of(e),
        ));
    }
    LogResponse { entries: out, total, page, total_pages }
}

} // verus!
