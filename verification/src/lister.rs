use vstd::prelude::*;
use crate::date::LocalDate;
use crate::date::MAX_DATABLE_SECS;
use crate::date::MIN_DATABLE_SECS;
use crate::date::datable;
use crate::date::is_from_today;
use crate::date::local_date_of_timestamp;
use crate::entry::Entry;
use crate::entry::RawEntry;
use crate::entry::hidden_name;
use crate::entry::is_hidden;
use crate::entry::nanos_key;

verus! {

/// An entry survives the filter when it is a regular file, is not hidden,
/// and, under the today-only option, was modified on the given date.
pub open spec fn keep(e: Entry, today_only: bool, today: LocalDate) -> bool {
    e.is_file && !hidden_name(e.name) && (today_only ==> e.date == today)
}

/// The subsequence of entries that survive the filter, in input order.
pub open spec fn filtered(s: Seq<Entry>, today_only: bool, today: LocalDate) -> Seq<Entry>
    decreases s.len(),
{
    if s.len() == 0 {
        Seq::empty()
    } else {
        let rest = filtered(s.drop_last(), today_only, today);
        if keep(s.last(), today_only, today) {
            rest.push(s.last())
        } else {
            rest
        }
    }
}

/// Where an entry lands when inserted into a sequence already ordered by
/// modification time descending: after every entry at least as recent.
pub open spec fn insert_desc(s: Seq<Entry>, e: Entry) -> Seq<Entry>
    decreases s.len(),
{
    if s.len() == 0 {
        seq![e]
    } else if s[0].modified >= e.modified {
        seq![s[0]] + insert_desc(s.skip(1), e)
    } else {
        seq![e] + s
    }
}

/// Insertion sort by modification time, newest first.
pub open spec fn sort_desc(s: Seq<Entry>) -> Seq<Entry>
    decreases s.len(),
{
    if s.len() == 0 {
        Seq::empty()
    } else {
        insert_desc(sort_desc(s.drop_last()), s.last())
    }
}

/// The whole scan: filter, then order by modification time descending.
pub open spec fn scan_spec(s: Seq<Entry>, today_only: bool, today: LocalDate) -> Seq<Entry> {
    sort_desc(filtered(s, today_only, today))
}

/// Ordered by modification time, newest first.
pub open spec fn sorted_desc(s: Seq<Entry>) -> bool {
    forall|i: int, j: int| 0 <= i <= j < s.len() ==> s[i].modified >= s[j].modified
}

proof fn lemma_insert_desc_len(s: Seq<Entry>, e: Entry)
    ensures
        insert_desc(s, e).len() == s.len() + 1,
    decreases s.len(),
{
    if s.len() == 0 {
    } else if s[0].modified >= e.modified {
        lemma_insert_desc_len(s.skip(1), e);
    }
}

proof fn lemma_insert_desc_contains(s: Seq<Entry>, e: Entry)
    ensures
        forall|x: Entry| #[trigger] insert_desc(s, e).contains(x) <==> (x == e || s.contains(x)),
    decreases s.len(),
{
    lemma_insert_desc_len(s, e);
    if s.len() == 0 {
        assert forall|x: Entry| #[trigger] insert_desc(s, e).contains(x) implies (x == e
            || s.contains(x)) by {
            let i = choose|i: int| 0 <= i < insert_desc(s, e).len() && insert_desc(s, e)[i] == x;
            assert(i == 0);
        }
        assert(insert_desc(s, e)[0] == e);
    } else if s[0].modified >= e.modified {
        lemma_insert_desc_contains(s.skip(1), e);
        let r = insert_desc(s, e);
        let rt = insert_desc(s.skip(1), e);
        assert forall|x: Entry| #[trigger] r.contains(x) implies (x == e || s.contains(x)) by {
            let i = choose|i: int| 0 <= i < r.len() && r[i] == x;
            if i == 0 {
                assert(s.contains(s[0]));
            } else {
                assert(rt[i - 1] == x);
                assert(rt.contains(x));
                if x != e {
                    let j = choose|j: int| 0 <= j < s.skip(1).len() && s.skip(1)[j] == x;
                    assert(s[j + 1] == x);
                    assert(s.contains(x));
                }
            }
        }
        assert forall|x: Entry| (x == e || s.contains(x)) implies #[trigger] r.contains(x) by {
            if x == e {
                assert(rt.contains(e));
                let j = choose|j: int| 0 <= j < rt.len() && rt[j] == e;
                assert(r[j + 1] == e);
            } else {
                let i = choose|i: int| 0 <= i < s.len() && s[i] == x;
                if i == 0 {
                    assert(r[0] == x);
                } else {
                    assert(s.skip(1)[i - 1] == x);
                    assert(s.skip(1).contains(x));
                    assert(rt.contains(x));
                    let j = choose|j: int| 0 <= j < rt.len() && rt[j] == x;
                    assert(r[j + 1] == x);
                }
            }
        }
    } else {
        let r = insert_desc(s, e);
        assert forall|x: Entry| #[trigger] r.contains(x) implies (x == e || s.contains(x)) by {
            let i = choose|i: int| 0 <= i < r.len() && r[i] == x;
            if i > 0 {
                assert(s[i - 1] == x);
                assert(s.contains(x));
            }
        }
        assert forall|x: Entry| (x == e || s.contains(x)) implies #[trigger] r.contains(x) by {
            if x == e {
                assert(r[0] == e);
            } else {
                let i = choose|i: int| 0 <= i < s.len() && s[i] == x;
                assert(r[i + 1] == x);
            }
        }
    }
}

proof fn lemma_insert_desc_sorted(s: Seq<Entry>, e: Entry)
    requires
        sorted_desc(s),
    ensures
        sorted_desc(insert_desc(s, e)),
    decreases s.len(),
{
    lemma_insert_desc_len(s, e);
    if s.len() == 0 {
    } else if s[0].modified >= e.modified {
        assert forall|i: int, j: int| 0 <= i <= j < s.skip(1).len() implies s.skip(1)[i].modified
            >= s.skip(1)[j].modified by {
            assert(s[i + 1].modified >= s[j + 1].modified);
        }
        lemma_insert_desc_sorted(s.skip(1), e);
        lemma_insert_desc_contains(s.skip(1), e);
        let r = insert_desc(s, e);
        let rt = insert_desc(s.skip(1), e);
        assert forall|i: int, j: int| 0 <= i <= j < r.len() implies r[i].modified
            >= r[j].modified by {
            if i == 0 && j > 0 {
                assert(rt.contains(rt[j - 1]));
                if rt[j - 1] != e {
                    let k = choose|k: int| 0 <= k < s.skip(1).len() && s.skip(1)[k] == rt[j - 1];
                    assert(s[k + 1] == rt[j - 1]);
                    assert(s[0].modified >= s[k + 1].modified);
                }
            } else if i > 0 {
                assert(rt[i - 1].modified >= rt[j - 1].modified);
            }
        }
    } else {
        let r = insert_desc(s, e);
        assert forall|i: int, j: int| 0 <= i <= j < r.len() implies r[i].modified
            >= r[j].modified by {
            if i == 0 && j > 0 {
                assert(e.modified > s[0].modified);
                assert(s[0].modified >= s[j - 1].modified);
            } else if i > 0 {
                assert(s[i - 1].modified >= s[j - 1].modified);
            }
        }
    }
}

/// The sort neither invents nor loses entries: its result holds exactly the
/// entries of its input.
pub proof fn lemma_sort_desc_contains(s: Seq<Entry>)
    ensures
        forall|x: Entry| #[trigger] sort_desc(s).contains(x) <==> s.contains(x),
        sort_desc(s).len() == s.len(),
    decreases s.len(),
{
    if s.len() == 0 {
    } else {
        lemma_sort_desc_contains(s.drop_last());
        lemma_insert_desc_contains(sort_desc(s.drop_last()), s.last());
        lemma_insert_desc_len(sort_desc(s.drop_last()), s.last());
        assert forall|x: Entry| #[trigger] sort_desc(s).contains(x) implies s.contains(x) by {
            if x == s.last() {
                assert(s[s.len() - 1] == x);
            } else {
                let i = choose|i: int| 0 <= i < s.drop_last().len() && s.drop_last()[i] == x;
                assert(s[i] == x);
            }
        }
        assert forall|x: Entry| s.contains(x) implies #[trigger] sort_desc(s).contains(x) by {
            let i = choose|i: int| 0 <= i < s.len() && s[i] == x;
            if i < s.len() - 1 {
                assert(s.drop_last()[i] == x);
                assert(s.drop_last().contains(x));
            }
        }
    }
}

/// The sort's result is ordered by modification time descending.
pub proof fn lemma_sort_desc_sorted(s: Seq<Entry>)
    ensures
        sorted_desc(sort_desc(s)),
    decreases s.len(),
{
    if s.len() > 0 {
        lemma_sort_desc_sorted(s.drop_last());
        lemma_insert_desc_sorted(sort_desc(s.drop_last()), s.last());
    }
}

proof fn lemma_insert_desc_at(s: Seq<Entry>, e: Entry, j: int)
    requires
        sorted_desc(s),
        0 <= j <= s.len(),
        forall|q: int| 0 <= q < j ==> s[q].modified >= e.modified,
        j < s.len() ==> s[j].modified < e.modified,
    ensures
        insert_desc(s, e) == s.insert(j, e),
    decreases s.len(),
{
    if s.len() == 0 {
        assert(insert_desc(s, e) =~= s.insert(0, e));
    } else if s[0].modified >= e.modified {
        assert(j >= 1) by {
            if j == 0 {
                assert(s[0].modified < e.modified);
            }
        }
        let st = s.skip(1);
        assert forall|p: int, q: int| 0 <= p <= q < st.len() implies st[p].modified
            >= st[q].modified by {
            assert(s[p + 1].modified >= s[q + 1].modified);
        }
        assert forall|q: int| 0 <= q < j - 1 implies st[q].modified >= e.modified by {
            assert(s[q + 1].modified >= e.modified);
        }
        lemma_insert_desc_at(st, e, j - 1);
        assert(seq![s[0]] + st.insert(j - 1, e) =~= s.insert(j, e));
    } else {
        assert(j == 0);
        assert(seq![e] + s =~= s.insert(0, e));
    }
}

proof fn lemma_filtered_sub(s: Seq<Entry>, today_only: bool, today: LocalDate)
    ensures
        filtered(s, today_only, today).len() <= s.len(),
        forall|x: Entry| #[trigger] filtered(s, today_only, today).contains(x) ==> keep(
            x,
            today_only,
            today,
        ) && s.contains(x),
    decreases s.len(),
{
    if s.len() > 0 {
        lemma_filtered_sub(s.drop_last(), today_only, today);
        let f = filtered(s, today_only, today);
        let ft = filtered(s.drop_last(), today_only, today);
        assert forall|x: Entry| #[trigger] f.contains(x) implies keep(x, today_only, today)
            && s.contains(x) by {
            let i = choose|i: int| 0 <= i < f.len() && f[i] == x;
            if keep(s.last(), today_only, today) && i == f.len() - 1 {
                assert(x == s.last());
                assert(s[s.len() - 1] == x);
            } else {
                assert(ft[i] == x);
                assert(ft.contains(x));
                let m = choose|m: int| 0 <= m < s.drop_last().len() && s.drop_last()[m] == x;
                assert(s[m] == x);
            }
        }
    }
}

/// One step of the filter: extending the scanned prefix by one entry extends
/// its filtered form exactly when that entry survives the filter.
proof fn lemma_filtered_step(s: Seq<Entry>, today_only: bool, today: LocalDate, k: int)
    requires
        0 <= k < s.len(),
    ensures
        filtered(s.take(k + 1), today_only, today) == if keep(s[k], today_only, today) {
            filtered(s.take(k), today_only, today).push(s[k])
        } else {
            filtered(s.take(k), today_only, today)
        },
{
    assert(s.take(k + 1).drop_last() =~= s.take(k));
    assert(s.take(k + 1).last() == s[k]);
}

/// A candidate entry faithfully mirrors a raw one: same path, name and file
/// flag, and a modification key equal to the raw instant in nanoseconds.
pub open spec fn mirrors(raw: RawEntry, e: Entry) -> bool {
    &&& e.path == raw.path
    &&& e.name == raw.name
    &&& e.is_file == raw.is_file
    &&& raw.modified matches Some(ts) && e.modified == nanos_key(ts)
}

/// A raw entry whose modification instant was read and can be placed on a
/// calendar date: these become candidates; all others are skipped.
pub open spec fn readable(raw: RawEntry) -> bool {
    raw.modified matches Some(ts) && datable(ts.secs, ts.nanos)
}

/// The raw entries that become candidates, in input order: exactly the
/// readable ones.
pub open spec fn kept(raws: Seq<RawEntry>) -> Seq<RawEntry>
    decreases raws.len(),
{
    if raws.len() == 0 {
        Seq::empty()
    } else {
        let rest = kept(raws.drop_last());
        if readable(raws.last()) {
            rest.push(raws.last())
        } else {
            rest
        }
    }
}

proof fn lemma_kept_step(raws: Seq<RawEntry>, k: int)
    requires
        0 <= k < raws.len(),
    ensures
        kept(raws.take(k + 1)) == if readable(raws[k]) {
            kept(raws.take(k)).push(raws[k])
        } else {
            kept(raws.take(k))
        },
{
    assert(raws.take(k + 1).drop_last() =~= raws.take(k));
    assert(raws.take(k + 1).last() == raws[k]);
}

/// Turns a raw directory snapshot into candidate entries: exactly the
/// readable raw entries, in input order, each mirrored one for one. Partial
/// failures are tolerated uniformly: an entry whose modification instant
/// could not be read, like one whose instant lies outside the range a
/// calendar date can be computed for, is skipped by itself rather than
/// aborting the listing. Each candidate's date is well formed; which date
/// its instant gets depends on the machine's time zone.
pub fn prepare(raw: Vec<RawEntry>) -> (r: Vec<Entry>)
    ensures
        r@.len() == kept(raw@).len(),
        forall|j: int|
            0 <= j < r@.len() ==> mirrors(kept(raw@)[j], #[trigger] r@[j]) && r@[j].date.wf(),
{
    let mut input = raw;
    let mut out: Vec<Entry> = Vec::new();
    let ghost mut k: int = 0;
    while input.len() > 0
        invariant
            0 <= k <= raw@.len(),
            input@ == raw@.skip(k),
            out@.len() == kept(raw@.take(k)).len(),
            forall|j: int|
                0 <= j < out@.len() ==> mirrors(kept(raw@.take(k))[j], #[trigger] out@[j])
                    && out@[j].date.wf(),
        decreases input.len(),
    {
        proof {
            assert(raw@.skip(k)[0] == raw@[k]);
            lemma_kept_step(raw@, k);
        }
        let e = input.remove(0);
        proof {
            assert(input@ =~= raw@.skip(k + 1));
        }
        if let Some(ts) = e.modified {
            if ts.secs >= MIN_DATABLE_SECS && ts.secs <= MAX_DATABLE_SECS && ts.nanos
                < 1_000_000_000 {
                if let Some(d) = local_date_of_timestamp(ts.secs, ts.nanos) {
                    let key: i128 = (ts.secs as i128) * 1_000_000_000 + (ts.nanos as i128);
                    let entry = Entry {
                        path: e.path,
                        name: e.name,
                        is_file: e.is_file,
                        modified: key,
                        date: d,
                    };
                    proof {
                        assert(mirrors(raw@[k], entry));
                    }
                    out.push(entry);
                }
            }
        }
        proof {
            k = k + 1;
        }
    }
    proof {
        assert(raw@.take(k) =~= raw@);
    }
    out
}

/// Filters a directory snapshot down to its visible regular files — under
/// the today-only option, to those modified on `today` — and orders the
/// survivors by modification time, newest first.
pub fn scan(entries: Vec<Entry>, today_only: bool, today: LocalDate) -> (r: Vec<Entry>)
    ensures
        r@ == scan_spec(entries@, today_only, today),
{
    let ghost all = entries@;
    let mut input = entries;
    let mut kept: Vec<Entry> = Vec::new();
    let ghost mut k: int = 0;
    while input.len() > 0
        invariant
            0 <= k <= all.len(),
            input@ == all.skip(k),
            kept@ == filtered(all.take(k), today_only, today),
        decreases input.len(),
    {
        proof {
            assert(all.skip(k)[0] == all[k]);
        }
        let e = input.remove(0);
        proof {
            assert(input@ =~= all.skip(k + 1));
        }
        let eligible = e.is_file && !is_hidden(&e.name) && (!today_only || is_from_today(
            &e.date,
            &today,
        ));
        proof {
            lemma_filtered_step(all, today_only, today, k);
        }
        if eligible {
            kept.push(e);
        }
        proof {
            k = k + 1;
        }
    }
    proof {
        assert(all.take(k) =~= all);
    }
    let ghost f = filtered(all, today_only, today);
    let mut out: Vec<Entry> = Vec::new();
    let ghost mut m: int = 0;
    while kept.len() > 0
        invariant
            0 <= m <= f.len(),
            kept@ == f.skip(m),
            out@ == sort_desc(f.take(m)),
        decreases kept.len(),
    {
        proof {
            assert(f.skip(m)[0] == f[m]);
        }
        let e = kept.remove(0);
        proof {
            assert(kept@ =~= f.skip(m + 1));
        }
        let mut j: usize = 0;
        while j < out.len() && out[j].modified >= e.modified
            invariant
                0 <= j <= out@.len(),
                forall|q: int| 0 <= q < j ==> out@[q].modified >= e.modified,
            decreases out@.len() - j,
        {
            j = j + 1;
        }
        proof {
            lemma_sort_desc_sorted(f.take(m));
            lemma_insert_desc_at(out@, e, j as int);
            assert(f.take(m + 1).drop_last() =~= f.take(m));
            assert(f.take(m + 1).last() == f[m]);
        }
        out.insert(j, e);
        proof {
            m = m + 1;
        }
    }
    proof {
        assert(f.take(m) =~= f);
    }
    out
}

/// The listing that is printed: the path of each entry, in order.
pub open spec fn paths_spec(s: Seq<Entry>) -> Seq<String>
    decreases s.len(),
{
    if s.len() == 0 {
        Seq::empty()
    } else {
        paths_spec(s.drop_last()).push(s.last().path)
    }
}

/// Projects the ordered entries to the paths that are printed.
pub fn paths_of(entries: Vec<Entry>) -> (r: Vec<String>)
    ensures
        r@ == paths_spec(entries@),
{
    let ghost all = entries@;
    let mut input = entries;
    let mut out: Vec<String> = Vec::new();
    let ghost mut k: int = 0;
    while input.len() > 0
        invariant
            0 <= k <= all.len(),
            input@ == all.skip(k),
            out@ == paths_spec(all.take(k)),
        decreases input.len(),
    {
        proof {
            assert(all.skip(k)[0] == all[k]);
        }
        let e = input.remove(0);
        proof {
            assert(input@ =~= all.skip(k + 1));
            assert(all.take(k + 1).drop_last() =~= all.take(k));
            assert(all.take(k + 1).last() == all[k]);
        }
        out.push(e.path);
        proof {
            k = k + 1;
        }
    }
    proof {
        assert(all.take(k) =~= all);
    }
    out
}

/// What the limiting stage yields: the whole listing when no count is given,
/// else at most the first `count` paths.
pub open spec fn limit_spec(s: Seq<String>, count: Option<usize>) -> Seq<String> {
    match count {
        None => s,
        Some(n) => if n <= s.len() {
            s.take(n as int)
        } else {
            s
        },
    }
}

/// Caps the listing: no count passes it through unchanged; a count keeps at
/// most that many leading paths.
pub fn limit(paths: Vec<String>, count: Option<usize>) -> (r: Vec<String>)
    ensures
        r@ == limit_spec(paths@, count),
{
    match count {
        None => paths,
        Some(n) => {
            let mut p = paths;
            p.truncate(n);
            p
        },
    }
}

/// Law: every entry that a scan without the today filter lists is a regular,
/// non-hidden file drawn from the scanned snapshot.
pub proof fn lemma_scan_only_visible_files(s: Seq<Entry>, today: LocalDate)
    ensures
        forall|x: Entry| #[trigger] scan_spec(s, false, today).contains(x) ==> x.is_file
            && !hidden_name(x.name) && s.contains(x),
{
    lemma_sort_desc_contains(filtered(s, false, today));
    lemma_filtered_sub(s, false, today);
}

/// Law: every entry that a scan with the today filter lists was modified on
/// the given current date, besides being a regular, non-hidden file of the
/// scanned snapshot.
pub proof fn lemma_scan_today_only(s: Seq<Entry>, today: LocalDate)
    ensures
        forall|x: Entry| #[trigger] scan_spec(s, true, today).contains(x) ==> x.date == today
            && x.is_file && !hidden_name(x.name) && s.contains(x),
{
    lemma_sort_desc_contains(filtered(s, true, today));
    lemma_filtered_sub(s, true, today);
}

/// Law: a scan's listing is ordered by modification time, newest first.
pub proof fn lemma_scan_sorted(s: Seq<Entry>, today_only: bool, today: LocalDate)
    ensures
        sorted_desc(scan_spec(s, today_only, today)),
{
    lemma_sort_desc_sorted(filtered(s, today_only, today));
}

/// Law: the scan is a function of the snapshot and the options alone, so two
/// runs over an unchanged directory produce identical listings.
pub proof fn lemma_scan_deterministic(
    s1: Seq<Entry>,
    s2: Seq<Entry>,
    today_only: bool,
    today: LocalDate,
)
    requires
        s1 == s2,
    ensures
        scan_spec(s1, today_only, today) == scan_spec(s2, today_only, today),
{
}

/// Law: with no count given, the limiting stage is the identity.
pub proof fn lemma_limit_none(s: Seq<String>)
    ensures
        limit_spec(s, None) == s,
{
}

/// Law: a count of zero yields an empty listing.
pub proof fn lemma_limit_zero(s: Seq<String>)
    ensures
        limit_spec(s, Some(0)) == Seq::<String>::empty(),
{
    assert(limit_spec(s, Some(0)) =~= Seq::<String>::empty());
}

/// Law: a count keeps exactly the smaller of the count and the listing's
/// length.
pub proof fn lemma_limit_len(s: Seq<String>, n: usize)
    ensures
        limit_spec(s, Some(n)).len() == vstd::math::min(n as int, s.len() as int),
{
}

} // verus!
