//! Object listing: from the files found under the storage root, the listing
//! keeps those that are not unfinished uploads, match the prefix and come
//! after the cursor, orders them by key (the byte order of `String`, ties kept
//! in the order found), and cuts the result to the limit, giving the cursor of
//! the next page when entries remain.

use vstd::prelude::*;

use crate::auth::{authorized, require_auth};
use crate::error::{is_unauthorized, ErrorResponse};
use crate::state::AppState;
use crate::text::{
    bytes_le, bytes_lt, bytes_of, is_prefix, is_suffix, lemma_bytes_le_reflexive, lemma_bytes_le_total,
    lemma_bytes_le_antisymmetric, lemma_bytes_le_transitive, slice_ends_with, slice_le,
    slice_starts_with,
};

verus! {

/// A stored object as listed: its key, size in bytes and modification time
/// (RFC 3339), when known.
#[derive(Debug)]
pub struct ListItem {
    pub key: String,
    pub size: u64,
    pub last_modified: Option<String>,
}

/// The RFC 3339 text (UTC, `Z`) of the instant `nanos` nanoseconds after
/// the Unix epoch, as the `time` crate writes it; `None` where it writes none.
pub uninterp spec fn rfc3339_text(nanos: int) -> Option<Seq<char>>;

/// Formats an instant with `time::OffsetDateTime::from_unix_timestamp_nanos`
/// and `format(&Rfc3339)`. Trusted: the result is `rfc3339_text(nanos)`, and
/// there is one for every instant from 0000-01-01T00:00:00Z up to (not
/// including) 10000-01-01T00:00:00Z, as the crate's source shows (the instant
/// is in range, the offset is UTC, and the year has four digits). Outside
/// that range which instants give none is left unsaid.
#[verifier::external_body]
fn format_rfc3339(nanos: i128) -> (r: Option<String>)
    ensures
        match r {
            Some(t) => rfc3339_text(nanos as int) == Some(t@),
            None => rfc3339_text(nanos as int) is None,
        },
        -62167219200_000_000_000 <= nanos < 253402300800_000_000_000 ==> r is Some,
{
    match time::OffsetDateTime::from_unix_timestamp_nanos(nanos) {
        Ok(dt) => dt.format(&time::format_description::well_known::Rfc3339).ok(),
        Err(_) => None,
    }
}

/// The listing entry of a file: its key, its size, and its modification
/// time (nanoseconds since the Unix epoch, when known) as RFC 3339 text.
pub fn list_entry(key: String, size: u64, modified: Option<i128>) -> (r: ListItem)
    ensures
        r.key@ == key@,
        r.size == size,
        match modified {
            Some(n) => match r.last_modified {
                Some(t) => rfc3339_text(n as int) == Some(t@),
                None => rfc3339_text(n as int) is None,
            },
            None => r.last_modified is None,
        },
        modified matches Some(n) && -62167219200_000_000_000 <= n < 253402300800_000_000_000
            ==> r.last_modified is Some,
{
    let last_modified = match modified {
        Some(n) => format_rfc3339(n),
        None => None,
    };
    ListItem { key, size, last_modified }
}

/// The bytes by which an item is ordered.
pub open spec fn item_key(e: ListItem) -> Seq<u8> {
    bytes_of(e.key@)
}

/// `a` comes no later than `b` in key order.
pub open spec fn item_le(a: ListItem, b: ListItem) -> bool {
    bytes_le(item_key(a), item_key(b))
}

/// The name ending of the temporary files that uploads write before renaming.
pub open spec fn upload_suffix() -> Seq<u8> {
    bytes_of(".uploading.tmp"@)
}

/// Whether the listing shows an entry: it is not an unfinished upload, its
/// key starts with `prefix` (when one is given), and its key comes after
/// `cursor` (when one is given).
pub open spec fn is_listed(e: ListItem, prefix: Seq<char>, cursor: Seq<char>) -> bool {
    &&& !is_suffix(upload_suffix(), item_key(e))
    &&& (prefix.len() == 0 || is_prefix(bytes_of(prefix), item_key(e)))
    &&& (cursor.len() == 0 || !bytes_le(item_key(e), bytes_of(cursor)))
}

/// The entries of `s` that satisfy `f`, in order.
pub open spec fn filter_items(s: Seq<ListItem>, f: spec_fn(ListItem) -> bool) -> Seq<ListItem>
    decreases s.len(),
{
    if s.len() == 0 {
        seq![]
    } else if f(s.last()) {
        filter_items(s.drop_last(), f).push(s.last())
    } else {
        filter_items(s.drop_last(), f)
    }
}

/// The entries of `s` that the listing shows, in order.
pub open spec fn listed_entries(s: Seq<ListItem>, prefix: Seq<char>, cursor: Seq<char>) -> Seq<
    ListItem,
> {
    filter_items(s, |e: ListItem| is_listed(e, prefix, cursor))
}

/// Inserts `x` into `s` after every entry whose key is no greater.
pub open spec fn insert_sorted(s: Seq<ListItem>, x: ListItem) -> Seq<ListItem>
    decreases s.len(),
{
    if s.len() == 0 {
        seq![x]
    } else if item_le(s.last(), x) {
        s.push(x)
    } else {
        insert_sorted(s.drop_last(), x).push(s.last())
    }
}

/// `s` ordered by key; entries with equal keys keep their order (stable sort).
pub open spec fn sort_items(s: Seq<ListItem>) -> Seq<ListItem>
    decreases s.len(),
{
    if s.len() == 0 {
        seq![]
    } else {
        insert_sorted(sort_items(s.drop_last()), s.last())
    }
}

/// `s` is in key order.
pub open spec fn is_sorted(s: Seq<ListItem>) -> bool {
    forall|i: int, j: int| 0 <= i < j < s.len() ==> item_le(#[trigger] s[i], #[trigger] s[j])
}

/// A page of the listing: the items, and the cursor of the next page, given
/// whenever listed entries remain after the page: the key of the page's last
/// item, or the incoming cursor when the limit is zero.
pub open spec fn list_page(entries: Seq<ListItem>, prefix: Seq<char>, cursor: Seq<char>, limit: nat) -> (
    Seq<ListItem>,
    Option<Seq<char>>,
) {
    let all = sort_items(listed_entries(entries, prefix, cursor));
    if all.len() > limit {
        (
            all.take(limit as int),
            Some(
                if limit > 0 {
                    all[limit - 1].key@
                } else {
                    cursor
                },
            ),
        )
    } else {
        (all, None)
    }
}

/* ---------------- lemmas on order ---------------- */

proof fn lemma_item_le_total(a: ListItem, b: ListItem)
    ensures
        item_le(a, b) || item_le(b, a),
{
    lemma_bytes_le_total(item_key(a), item_key(b));
}

proof fn lemma_item_le_transitive(a: ListItem, b: ListItem, c: ListItem)
    requires
        item_le(a, b),
        item_le(b, c),
    ensures
        item_le(a, c),
{
    lemma_bytes_le_transitive(item_key(a), item_key(b), item_key(c));
}

/// Inserting at the position that separates the entries no greater than `x`
/// from those greater is what `insert_sorted` does.
proof fn lemma_insert_sorted_at(s: Seq<ListItem>, x: ListItem, p: int)
    requires
        is_sorted(s),
        0 <= p <= s.len(),
        forall|i: int| 0 <= i < p ==> item_le(#[trigger] s[i], x),
        forall|i: int| p <= i < s.len() ==> !item_le(#[trigger] s[i], x),
    ensures
        insert_sorted(s, x) == s.insert(p, x),
    decreases s.len(),
{
    if s.len() == 0 {
        assert(s.insert(p, x) =~= seq![x]);
    } else if item_le(s.last(), x) {
        assert(p == s.len());
        assert(s.insert(p, x) =~= s.push(x));
    } else {
        let t = s.drop_last();
        assert(p < s.len());
        lemma_insert_sorted_at(t, x, p);
        assert(s.insert(p, x) =~= t.insert(p, x).push(s.last()));
    }
}

/// `insert_sorted` keeps a sorted sequence sorted.
proof fn lemma_insert_sorted_sorted(s: Seq<ListItem>, x: ListItem)
    requires
        is_sorted(s),
    ensures
        is_sorted(insert_sorted(s, x)),
        insert_sorted(s, x).len() == s.len() + 1,
        insert_sorted(s, x).to_multiset() == s.to_multiset().insert(x),
    decreases s.len(),
{
    broadcast use vstd::seq_lib::group_to_multiset_ensures;

    let r = insert_sorted(s, x);
    if s.len() == 0 {
        assert(r =~= seq![x]);
        assert(seq![x] =~= Seq::<ListItem>::empty().push(x));
    } else if item_le(s.last(), x) {
        assert forall|i: int, j: int| 0 <= i < j < r.len() implies item_le(
            #[trigger] r[i],
            #[trigger] r[j],
        ) by {
            if j == s.len() {
                if i < s.len() - 1 {
                    lemma_item_le_transitive(s[i], s.last(), x);
                }
            }
        }
    } else {
        let t = s.drop_last();
        lemma_insert_sorted_sorted(t, x);
        let u = insert_sorted(t, x);
        assert(r == u.push(s.last()));
        lemma_item_le_total(s.last(), x);
        assert forall|i: int, j: int| 0 <= i < j < r.len() implies item_le(
            #[trigger] r[i],
            #[trigger] r[j],
        ) by {
            if j == r.len() - 1 {
                // every entry of u is an entry of t or x; all are no greater than s.last()
                assert(u.to_multiset().contains(u[i]));
                assert(u.to_multiset() == t.to_multiset().insert(x));
                if u[i] != x {
                    assert(t.to_multiset().contains(u[i]));
                    assert(t.contains(u[i]));
                    let k = choose|k: int| 0 <= k < t.len() && t[k] == u[i];
                    assert(s[k] == t[k]);
                    assert(item_le(s[k], s[s.len() - 1]));
                }
            }
        }
        assert(t.push(s.last()) =~= s);
    }
}

/// `sort_items` gives a sorted permutation.
pub proof fn lemma_sort_items_sorted(s: Seq<ListItem>)
    ensures
        is_sorted(sort_items(s)),
        sort_items(s).len() == s.len(),
        sort_items(s).to_multiset() == s.to_multiset(),
    decreases s.len(),
{
    broadcast use vstd::seq_lib::group_to_multiset_ensures;

    if s.len() > 0 {
        lemma_sort_items_sorted(s.drop_last());
        lemma_insert_sorted_sorted(sort_items(s.drop_last()), s.last());
        assert(s.drop_last().push(s.last()) =~= s);
    }
}

/* ---------------- lemmas on filtering ---------------- */

/// No two entries share a key.
pub open spec fn distinct_keys(s: Seq<ListItem>) -> bool {
    forall|i: int, j: int| 0 <= i < j < s.len() ==> item_key(#[trigger] s[i]) != item_key(#[trigger] s[j])
}

proof fn lemma_filter_members(s: Seq<ListItem>, f: spec_fn(ListItem) -> bool)
    ensures
        forall|i: int|
            0 <= i < filter_items(s, f).len() ==> s.contains(#[trigger] filter_items(s, f)[i]) && f(
                filter_items(s, f)[i],
            ),
        distinct_keys(s) ==> distinct_keys(filter_items(s, f)),
    decreases s.len(),
{
    if s.len() > 0 {
        let t = s.drop_last();
        lemma_filter_members(t, f);
        let ft = filter_items(t, f);
        assert forall|i: int| 0 <= i < ft.len() implies s.contains(#[trigger] ft[i]) by {
            let k = choose|k: int| 0 <= k < t.len() && t[k] == ft[i];
            assert(s[k] == t[k]);
        }
        if f(s.last()) {
            let r = ft.push(s.last());
            assert(s[s.len() - 1] == s.last());
            if distinct_keys(s) {
                assert forall|i: int, j: int| 0 <= i < j < r.len() implies item_key(
                    #[trigger] r[i],
                ) != item_key(#[trigger] r[j]) by {
                    if j == r.len() - 1 {
                        let k = choose|k: int| 0 <= k < t.len() && t[k] == ft[i];
                        assert(s[k] == ft[i]);
                        assert(s[s.len() - 1] == r[j]);
                    } else {
                        assert(r[i] == ft[i] && r[j] == ft[j]);
                    }
                }
            }
        }
    }
}

/// Filtering twice is filtering once by both conditions.
proof fn lemma_filter_compose(
    s: Seq<ListItem>,
    f: spec_fn(ListItem) -> bool,
    g: spec_fn(ListItem) -> bool,
    h: spec_fn(ListItem) -> bool,
)
    requires
        forall|i: int| 0 <= i < s.len() ==> h(#[trigger] s[i]) == (f(s[i]) && g(s[i])),
    ensures
        filter_items(filter_items(s, f), g) == filter_items(s, h),
    decreases s.len(),
{
    if s.len() > 0 {
        let t = s.drop_last();
        assert forall|i: int| 0 <= i < t.len() implies h(#[trigger] t[i]) == (f(t[i]) && g(
            t[i],
        )) by {
            assert(t[i] == s[i]);
        }
        lemma_filter_compose(t, f, g, h);
        assert(h(s[s.len() - 1]) == (f(s[s.len() - 1]) && g(s[s.len() - 1])));
        if f(s.last()) {
            let ft = filter_items(t, f);
            assert(ft.push(s.last()).drop_last() =~= ft);
        }
    }
}

/// Filtering commutes with inserting into a sorted sequence.
proof fn lemma_filter_insert_sorted(t: Seq<ListItem>, x: ListItem, g: spec_fn(ListItem) -> bool)
    requires
        is_sorted(t),
    ensures
        filter_items(insert_sorted(t, x), g) == (if g(x) {
            insert_sorted(filter_items(t, g), x)
        } else {
            filter_items(t, g)
        }),
    decreases t.len(),
{
    if t.len() == 0 {
        assert(seq![x].drop_last() =~= t);
    } else if item_le(t.last(), x) {
        assert(t.push(x).drop_last() =~= t);
        let ft = filter_items(t, g);
        if g(x) && ft.len() > 0 {
            lemma_filter_members(t, g);
            assert(t.contains(ft[ft.len() - 1]));
            let k = choose|k: int| 0 <= k < t.len() && t[k] == ft[ft.len() - 1];
            if k < t.len() - 1 {
                assert(item_le(t[k], t[t.len() - 1]));
                lemma_item_le_transitive(t[k], t.last(), x);
            }
        }
    } else {
        let tp = t.drop_last();
        let l = t.last();
        assert forall|i: int, j: int| 0 <= i < j < tp.len() implies item_le(
            #[trigger] tp[i],
            #[trigger] tp[j],
        ) by {
            assert(tp[i] == t[i] && tp[j] == t[j]);
        }
        lemma_filter_insert_sorted(tp, x, g);
        let u = insert_sorted(tp, x);
        assert(u.push(l).drop_last() =~= u);
        assert(t =~= tp.push(l));
        let ftp = filter_items(tp, g);
        if g(l) {
            assert(ftp.push(l).drop_last() =~= ftp);
        }
    }
}

/// Sorting commutes with filtering.
proof fn lemma_sort_filter_commute(s: Seq<ListItem>, g: spec_fn(ListItem) -> bool)
    ensures
        sort_items(filter_items(s, g)) == filter_items(sort_items(s), g),
    decreases s.len(),
{
    if s.len() > 0 {
        let sp = s.drop_last();
        let x = s.last();
        lemma_sort_filter_commute(sp, g);
        lemma_sort_items_sorted(sp);
        lemma_filter_insert_sorted(sort_items(sp), x, g);
        if g(x) {
            let f = filter_items(sp, g);
            assert(f.push(x).drop_last() =~= f);
        }
    }
}

/// Filtering a sequence whose first `k` entries fail and the rest pass drops the first `k`.
proof fn lemma_filter_drops_prefix(s: Seq<ListItem>, g: spec_fn(ListItem) -> bool, k: int)
    requires
        0 <= k <= s.len(),
        forall|i: int| 0 <= i < k ==> !g(#[trigger] s[i]),
        forall|i: int| k <= i < s.len() ==> g(#[trigger] s[i]),
    ensures
        filter_items(s, g) == s.skip(k),
    decreases s.len(),
{
    if s.len() > 0 {
        let t = s.drop_last();
        if k == s.len() {
            lemma_filter_drops_prefix(t, g, t.len() as int);
            assert(!g(s[s.len() - 1]));
            assert(t.skip(t.len() as int) =~= Seq::<ListItem>::empty());
            assert(s.skip(k) =~= Seq::<ListItem>::empty());
        } else {
            lemma_filter_drops_prefix(t, g, k);
            assert(g(s[s.len() - 1]));
            assert(t.skip(k).push(s.last()) =~= s.skip(k));
        }
    } else {
        assert(s.skip(k) =~= s);
    }
}

/// Sorting keeps the entries: each entry of the result is an entry of the
/// input, and distinct keys stay distinct.
proof fn lemma_sort_members(s: Seq<ListItem>)
    ensures
        forall|i: int| 0 <= i < sort_items(s).len() ==> s.contains(#[trigger] sort_items(s)[i]),
        distinct_keys(s) ==> distinct_keys(sort_items(s)),
{
    broadcast use vstd::seq_lib::group_to_multiset_ensures;

    lemma_sort_items_sorted(s);
    let r = sort_items(s);
    assert forall|i: int| 0 <= i < r.len() implies s.contains(#[trigger] r[i]) by {
        assert(r.to_multiset().contains(r[i]));
    }
    if distinct_keys(s) {
        assert forall|i: int, j: int| 0 <= i < j < r.len() implies item_key(#[trigger] r[i])
            != item_key(#[trigger] r[j]) by {
            if item_key(r[i]) == item_key(r[j]) {
                let a = choose|a: int| 0 <= a < s.len() && s[a] == r[i];
                let b = choose|b: int| 0 <= b < s.len() && s[b] == r[j];
                if a == b {
                    // the same entry twice in the result: its count in the input is at least two
                    assert(r[i] == r[j]);
                    assert(r.remove(j).to_multiset().contains(r[i])) by {
                        assert(r.remove(j)[i] == r[i]);
                    }
                    assert(r.to_multiset().count(r[i]) >= 2) by {
                        assert(r.remove(j).to_multiset() == r.to_multiset().remove(r[j]));
                    }
                    assert(s.remove(a).to_multiset() == s.to_multiset().remove(s[a]));
                    assert(s.remove(a).to_multiset().contains(s[a]));
                    let c = choose|c: int| 0 <= c < s.remove(a).len() && s.remove(a)[c] == s[a];
                    if c < a {
                        assert(item_key(s[c]) != item_key(s[a]));
                    } else {
                        assert(s.remove(a)[c] == s[c + 1]);
                        assert(item_key(s[a]) != item_key(s[c + 1]));
                    }
                } else if a < b {
                    assert(item_key(s[a]) != item_key(s[b]));
                } else {
                    assert(item_key(s[b]) != item_key(s[a]));
                }
            }
        }
    }
}

/* ---------------- laws of the listing ---------------- */

/// Every page is in key order, holds at most `limit` items, each of them an
/// entry that the listing shows (never an unfinished upload, always matching
/// the prefix and after the cursor); when there is no next cursor, the page
/// holds every entry shown.
pub proof fn lemma_list_page_properties(
    entries: Seq<ListItem>,
    prefix: Seq<char>,
    cursor: Seq<char>,
    limit: nat,
)
    ensures
        is_sorted(list_page(entries, prefix, cursor, limit).0),
        list_page(entries, prefix, cursor, limit).0.len() <= limit,
        forall|i: int|
            0 <= i < list_page(entries, prefix, cursor, limit).0.len() ==> {
                let e = #[trigger] list_page(entries, prefix, cursor, limit).0[i];
                &&& entries.contains(e)
                &&& is_listed(e, prefix, cursor)
            },
        list_page(entries, prefix, cursor, limit).1 is None ==> list_page(
            entries,
            prefix,
            cursor,
            limit,
        ).0.to_multiset() == listed_entries(entries, prefix, cursor).to_multiset(),
{
    let v = listed_entries(entries, prefix, cursor);
    let all = sort_items(v);
    let page = list_page(entries, prefix, cursor, limit);
    lemma_sort_items_sorted(v);
    lemma_sort_members(v);
    lemma_filter_members(entries, |e: ListItem| is_listed(e, prefix, cursor));
    assert forall|i: int| 0 <= i < page.0.len() implies {
        let e = #[trigger] page.0[i];
        &&& entries.contains(e)
        &&& is_listed(e, prefix, cursor)
    } by {
        assert(page.0[i] == all[i]);
        assert(v.contains(all[i]));
        let k = choose|k: int| 0 <= k < v.len() && v[k] == all[i];
        assert(entries.contains(v[k]));
    }
    assert forall|i: int, j: int| 0 <= i < j < page.0.len() implies item_le(
        #[trigger] page.0[i],
        #[trigger] page.0[j],
    ) by {
        assert(page.0[i] == all[i] && page.0[j] == all[j]);
    }
}

/// Every entry of `s` that satisfies `f` is kept by `filter_items`.
proof fn lemma_filter_keeps(s: Seq<ListItem>, f: spec_fn(ListItem) -> bool, e: ListItem)
    requires
        s.contains(e),
        f(e),
    ensures
        filter_items(s, f).contains(e),
    decreases s.len(),
{
    if s.last() == e {
        assert(filter_items(s, f).last() == e);
    } else {
        let k = choose|k: int| 0 <= k < s.len() && s[k] == e;
        assert(s.drop_last()[k] == e);
        lemma_filter_keeps(s.drop_last(), f, e);
        let t = filter_items(s.drop_last(), f);
        let j = choose|j: int| 0 <= j < t.len() && t[j] == e;
        if f(s.last()) {
            assert(filter_items(s, f)[j] == e);
        }
    }
}

/// An entry is shown by a listing exactly when its key does not end with
/// `.uploading.tmp`, its key's bytes begin with the bytes of `prefix` (when
/// a prefix is given), and its key's bytes come strictly after those of
/// `cursor` in byte order (when a cursor is given).
pub proof fn lemma_listed_exactly(e: ListItem, prefix: Seq<char>, cursor: Seq<char>)
    ensures
        is_listed(e, prefix, cursor) <==> {
            let k = bytes_of(e.key@);
            let p = bytes_of(prefix);
            let u = bytes_of(".uploading.tmp"@);
            &&& !(u.len() <= k.len() && k.subrange(k.len() - u.len(), k.len() as int) == u)
            &&& (prefix.len() == 0 || (p.len() <= k.len() && k.subrange(0, p.len() as int) == p))
            &&& (cursor.len() == 0 || bytes_lt(bytes_of(cursor), k))
        },
{
    let k = bytes_of(e.key@);
    let p = bytes_of(prefix);
    let c = bytes_of(cursor);
    let u = bytes_of(".uploading.tmp"@);
    assert(k.take(p.len() as int) =~= k.subrange(0, p.len() as int));
    assert(k.skip(k.len() - u.len()) =~= k.subrange(k.len() - u.len(), k.len() as int));
    lemma_bytes_le_total(k, c);
    lemma_bytes_le_reflexive(k);
    if bytes_le(k, c) && bytes_le(c, k) {
        lemma_bytes_le_antisymmetric(k, c);
    }
}

/// A page answers its request: every item starts with the requested prefix,
/// byte for byte, comes strictly after the cursor and is no unfinished
/// upload; and when the page is the last one (no next cursor), every entry
/// with these three properties is on it.
pub proof fn lemma_page_answers_request(
    entries: Seq<ListItem>,
    prefix: Seq<char>,
    cursor: Seq<char>,
    limit: nat,
)
    ensures
        forall|i: int|
            0 <= i < list_page(entries, prefix, cursor, limit).0.len() ==> {
                let k = bytes_of((#[trigger] list_page(entries, prefix, cursor, limit).0[i]).key@);
                let p = bytes_of(prefix);
                let u = bytes_of(".uploading.tmp"@);
                &&& !(u.len() <= k.len() && k.subrange(k.len() - u.len(), k.len() as int) == u)
                &&& (prefix.len() == 0 || (p.len() <= k.len() && k.subrange(0, p.len() as int)
                    == p))
                &&& (cursor.len() == 0 || bytes_lt(bytes_of(cursor), k))
            },
        list_page(entries, prefix, cursor, limit).1 is None ==> forall|e: ListItem|
            #![trigger entries.contains(e)]
            entries.contains(e) && {
                let k = bytes_of(e.key@);
                let p = bytes_of(prefix);
                let u = bytes_of(".uploading.tmp"@);
                &&& !(u.len() <= k.len() && k.subrange(k.len() - u.len(), k.len() as int) == u)
                &&& (prefix.len() == 0 || (p.len() <= k.len() && k.subrange(0, p.len() as int)
                    == p))
                &&& (cursor.len() == 0 || bytes_lt(bytes_of(cursor), k))
            } ==> list_page(entries, prefix, cursor, limit).0.contains(e),
{
    broadcast use vstd::seq_lib::group_to_multiset_ensures;

    let page = list_page(entries, prefix, cursor, limit);
    lemma_list_page_properties(entries, prefix, cursor, limit);
    assert forall|i: int| 0 <= i < page.0.len() implies {
        let k = bytes_of((#[trigger] page.0[i]).key@);
        let p = bytes_of(prefix);
        let u = bytes_of(".uploading.tmp"@);
        &&& !(u.len() <= k.len() && k.subrange(k.len() - u.len(), k.len() as int) == u)
        &&& (prefix.len() == 0 || (p.len() <= k.len() && k.subrange(0, p.len() as int) == p))
        &&& (cursor.len() == 0 || bytes_lt(bytes_of(cursor), k))
    } by {
        lemma_listed_exactly(page.0[i], prefix, cursor);
    }
    if page.1 is None {
        assert forall|e: ListItem|
            #![trigger entries.contains(e)]
            entries.contains(e) && {
                let k = bytes_of(e.key@);
                let p = bytes_of(prefix);
                let u = bytes_of(".uploading.tmp"@);
                &&& !(u.len() <= k.len() && k.subrange(k.len() - u.len(), k.len() as int) == u)
                &&& (prefix.len() == 0 || (p.len() <= k.len() && k.subrange(0, p.len() as int)
                    == p))
                &&& (cursor.len() == 0 || bytes_lt(bytes_of(cursor), k))
            } implies page.0.contains(e) by {
            lemma_listed_exactly(e, prefix, cursor);
            let f = |x: ListItem| is_listed(x, prefix, cursor);
            lemma_filter_keeps(entries, f, e);
            let v = listed_entries(entries, prefix, cursor);
            assert(v.to_multiset().contains(e));
            assert(page.0.to_multiset().contains(e));
        }
    }
}

/// Unfinished uploads are never listed: an entry whose key ends with
/// `.uploading.tmp` (as every upload's temporary file does, see
/// `upload_tmp_path`) is not shown, whatever the prefix and cursor.
pub proof fn lemma_upload_files_are_not_listed(e: ListItem, prefix: Seq<char>, cursor: Seq<char>)
    requires
        is_suffix(".uploading.tmp"@, e.key@),
    ensures
        !is_listed(e, prefix, cursor),
{
    let t = ".uploading.tmp"@;
    let k = e.key@;
    let head = k.take(k.len() - t.len());
    assert(k =~= head + t);
    crate::text::lemma_bytes_of_concat(head, t);
    let kb = item_key(e);
    let tb = upload_suffix();
    assert(kb == bytes_of(head) + tb);
    assert(kb.skip(kb.len() - tb.len()) =~= tb);
}

/// Pagination: when a page comes with a next cursor, listing again from that
/// cursor gives exactly the entries that followed the page, in order, provided
/// no two entries share a key and no key is empty (both hold of files under a
/// directory). A second page of any limit is therefore the continuation of the first.
pub proof fn lemma_next_page_continues(
    entries: Seq<ListItem>,
    prefix: Seq<char>,
    cursor: Seq<char>,
    limit: nat,
    next_limit: nat,
)
    requires
        distinct_keys(entries),
        forall|i: int| 0 <= i < entries.len() ==> (#[trigger] entries[i]).key@.len() > 0,
        list_page(entries, prefix, cursor, limit).1 is Some,
    ensures
        ({
            let next = list_page(entries, prefix, cursor, limit).1->0;
            let rest = sort_items(listed_entries(entries, prefix, cursor)).skip(limit as int);
            &&& sort_items(listed_entries(entries, prefix, next)) == rest
            &&& list_page(entries, prefix, next, next_limit).0 == (if rest.len() > next_limit {
                rest.take(next_limit as int)
            } else {
                rest
            })
        }),
{
    if limit == 0 {
        let all = sort_items(listed_entries(entries, prefix, cursor));
        assert(all.skip(0) =~= all);
    } else {
        lemma_next_page_continues_nonzero(entries, prefix, cursor, limit, next_limit);
    }
}

proof fn lemma_next_page_continues_nonzero(
    entries: Seq<ListItem>,
    prefix: Seq<char>,
    cursor: Seq<char>,
    limit: nat,
    next_limit: nat,
)
    requires
        limit > 0,
        distinct_keys(entries),
        forall|i: int| 0 <= i < entries.len() ==> (#[trigger] entries[i]).key@.len() > 0,
        list_page(entries, prefix, cursor, limit).1 is Some,
    ensures
        ({
            let next = list_page(entries, prefix, cursor, limit).1->0;
            let rest = sort_items(listed_entries(entries, prefix, cursor)).skip(limit as int);
            &&& sort_items(listed_entries(entries, prefix, next)) == rest
            &&& list_page(entries, prefix, next, next_limit).0 == (if rest.len() > next_limit {
                rest.take(next_limit as int)
            } else {
                rest
            })
        }),
{
    let f = |e: ListItem| is_listed(e, prefix, cursor);
    let v = listed_entries(entries, prefix, cursor);
    let all = sort_items(v);
    let last = all[limit - 1];
    let next = last.key@;
    assert(list_page(entries, prefix, cursor, limit).1->0 == next);
    let g = |e: ListItem| !bytes_le(item_key(e), bytes_of(next));
    let h = |e: ListItem| is_listed(e, prefix, next);

    lemma_sort_items_sorted(v);
    lemma_sort_members(v);
    lemma_filter_members(entries, f);
    assert(v.contains(last));
    let kv = choose|k: int| 0 <= k < v.len() && v[k] == last;
    assert(entries.contains(v[kv]) && f(v[kv]));
    let ke = choose|k: int| 0 <= k < entries.len() && entries[k] == last;
    assert(next.len() > 0);
    assert(is_listed(last, prefix, cursor));

    // listing from `next` filters the listing from `cursor` by "after next"
    assert forall|i: int| 0 <= i < entries.len() implies h(#[trigger] entries[i]) == (f(
        entries[i],
    ) && g(entries[i])) by {
        let e = entries[i];
        if g(e) && cursor.len() > 0 && bytes_le(item_key(e), bytes_of(cursor)) {
            lemma_bytes_le_total(item_key(e), bytes_of(next));
            lemma_bytes_le_transitive(item_key(last), item_key(e), bytes_of(cursor));
        }
    }
    lemma_filter_compose(entries, f, g, h);
    lemma_sort_filter_commute(v, g);

    // in the sorted listing, exactly the first `limit` entries are no greater than `next`
    assert forall|i: int| 0 <= i < limit implies !g(#[trigger] all[i]) by {
        if i < limit - 1 {
            assert(item_le(all[i], all[limit - 1]));
        } else {
            lemma_bytes_le_reflexive(item_key(last));
        }
    }
    assert forall|i: int| limit <= i < all.len() implies g(#[trigger] all[i]) by {
        assert(item_le(all[limit - 1], all[i]));
        assert(item_key(all[limit - 1]) != item_key(all[i]));
        if bytes_le(item_key(all[i]), item_key(last)) {
            crate::text::lemma_bytes_le_antisymmetric(item_key(all[i]), item_key(last));
        }
    }
    lemma_filter_members(entries, f);
    lemma_filter_drops_prefix(all, g, limit as int);
}

/// The cursor with which page `n` of a full listing is asked for: the empty
/// cursor for the first page, then each page's next cursor while there is one.
pub open spec fn traversal_cursor(entries: Seq<ListItem>, prefix: Seq<char>, limit: nat, n: nat) -> Option<
    Seq<char>,
>
    decreases n,
{
    if n == 0 {
        Some(Seq::<char>::empty())
    } else {
        match traversal_cursor(entries, prefix, limit, (n - 1) as nat) {
            Some(c) => list_page(entries, prefix, c, limit).1,
            None => None,
        }
    }
}

proof fn lemma_mul_step(n: nat, l: nat)
    requires
        n > 0,
    ensures
        ((n - 1) as nat) * l + l == n * l,
        n * l + l == (n + 1) * l,
{
    assert(((n - 1) as nat) * l + l == n * l) by (nonlinear_arith)
        requires
            n > 0,
    ;
    assert(n * l + l == (n + 1) * l) by (nonlinear_arith);
}

/// A full listing: following the next cursors from the empty cursor, page
/// `n` is asked for exactly while `n * limit` entries do not yet cover all
/// the listed entries, and it holds the entries from position `n * limit` to
/// `(n + 1) * limit` (or to the end) of the sorted listing. So the pages,
/// in order, give every listed entry exactly once, in key order, every page
/// but the last is full, and the listing ends. This holds for a positive
/// limit when no two entries share a key and no key is empty (both hold of
/// files under a directory). `list_impl` returns exactly `list_page`, so
/// this is what successive `list_impl` calls on unchanged entries give.
pub proof fn lemma_full_traversal(entries: Seq<ListItem>, prefix: Seq<char>, limit: nat, n: nat)
    requires
        limit > 0,
        distinct_keys(entries),
        forall|i: int| 0 <= i < entries.len() ==> (#[trigger] entries[i]).key@.len() > 0,
    ensures
        ({
            let all = sort_items(listed_entries(entries, prefix, Seq::<char>::empty()));
            &&& (traversal_cursor(entries, prefix, limit, n) is Some <==> (n == 0 || n * limit
                < all.len()))
            &&& traversal_cursor(entries, prefix, limit, n) matches Some(c) ==> {
                &&& n * limit <= all.len()
                &&& sort_items(listed_entries(entries, prefix, c)) == all.skip((n * limit) as int)
                &&& list_page(entries, prefix, c, limit).0 == all.subrange(
                    (n * limit) as int,
                    if (n + 1) * limit < all.len() {
                        ((n + 1) * limit) as int
                    } else {
                        all.len() as int
                    },
                )
            }
        }),
    decreases n,
{
    let all = sort_items(listed_entries(entries, prefix, Seq::<char>::empty()));
    if n == 0 {
        assert(n * limit == 0) by (nonlinear_arith)
            requires
                n == 0,
        ;
        assert((n + 1) * limit == limit) by (nonlinear_arith)
            requires
                n == 0,
        ;
        assert(all.skip(0) =~= all);
        if all.len() > limit {
            assert(all.take(limit as int) =~= all.subrange(0, limit as int));
        } else {
            assert(all =~= all.subrange(0, all.len() as int));
        }
    } else {
        let m = (n - 1) as nat;
        lemma_full_traversal(entries, prefix, limit, m);
        lemma_mul_step(n, limit);
        match traversal_cursor(entries, prefix, limit, m) {
            None => {},
            Some(c) => {
                let rest = all.skip((m * limit) as int);
                assert(rest.len() == all.len() - m * limit);
                if list_page(entries, prefix, c, limit).1 is Some {
                    lemma_next_page_continues(entries, prefix, c, limit, limit);
                    let c2 = list_page(entries, prefix, c, limit).1->0;
                    assert(traversal_cursor(entries, prefix, limit, n) == Some(c2));
                    assert(rest.skip(limit as int) =~= all.skip((n * limit) as int));
                    let r2 = all.skip((n * limit) as int);
                    if r2.len() > limit {
                        assert(r2.take(limit as int) =~= all.subrange(
                            (n * limit) as int,
                            ((n + 1) * limit) as int,
                        ));
                    } else {
                        assert(r2 =~= all.subrange((n * limit) as int, all.len() as int));
                    }
                }
            },
        }
    }
}

/* ---------------- executable listing ---------------- */

/// Whether the listing shows `e`.
fn listed(e: &ListItem, prefix: &str, cursor: &str) -> (r: bool)
    ensures
        r == is_listed(*e, prefix@, cursor@),
{
    let kb = e.key.as_str().as_bytes();
    let suffix = ".uploading.tmp";
    if slice_ends_with(kb, suffix.as_bytes()) {
        return false;
    }
    if !prefix.is_empty() && !slice_starts_with(kb, prefix.as_bytes()) {
        return false;
    }
    if !cursor.is_empty() && slice_le(kb, cursor.as_bytes()) {
        return false;
    }
    true
}

/// Whether `a` comes no later than `b` in key order.
fn key_le(a: &ListItem, b: &ListItem) -> (r: bool)
    ensures
        r == item_le(*a, *b),
{
    slice_le(a.key.as_str().as_bytes(), b.key.as_str().as_bytes())
}

/// The position in sorted `s` that separates the entries no greater than `x`
/// from those greater (binary search).
fn insert_position(s: &Vec<ListItem>, x: &ListItem) -> (p: usize)
    requires
        is_sorted(s@),
    ensures
        p <= s@.len(),
        forall|i: int| 0 <= i < p ==> item_le(#[trigger] s@[i], *x),
        forall|i: int| p <= i < s@.len() ==> !item_le(#[trigger] s@[i], *x),
{
    let mut lo: usize = 0;
    let mut hi: usize = s.len();
    while lo < hi
        invariant
            lo <= hi <= s@.len(),
            is_sorted(s@),
            forall|i: int| 0 <= i < lo ==> item_le(#[trigger] s@[i], *x),
            forall|i: int| hi <= i < s@.len() ==> !item_le(#[trigger] s@[i], *x),
        decreases hi - lo,
    {
        let mid = lo + (hi - lo) / 2;
        if key_le(&s[mid], x) {
            assert forall|i: int| 0 <= i < mid + 1 implies item_le(#[trigger] s@[i], *x) by {
                if i < mid {
                    lemma_item_le_transitive(s@[i], s@[mid as int], *x);
                }
            }
            lo = mid + 1;
        } else {
            assert forall|i: int| mid <= i < s@.len() implies !item_le(#[trigger] s@[i], *x) by {
                if i > mid && item_le(s@[i], *x) {
                    lemma_item_le_transitive(s@[mid as int], s@[i], *x);
                }
            }
            hi = mid;
        }
    }
    lo
}

/// Lists the entries found under the storage root: keeps those the listing
/// shows (see `is_listed`), sorts them by key, and returns the first `limit`
/// of them with, when more remain, the cursor of the next page: the key of
/// the last one returned (the incoming cursor when `limit` is zero).
pub fn list_impl(entries: Vec<ListItem>, prefix: &str, cursor: &str, limit: usize) -> (r: (
    Vec<ListItem>,
    Option<String>,
))
    ensures
        r.0@ == list_page(entries@, prefix@, cursor@, limit as nat).0,
        r.1 is Some <==> list_page(entries@, prefix@, cursor@, limit as nat).1 is Some,
        r.1 matches Some(c) ==> c@ == list_page(entries@, prefix@, cursor@, limit as nat).1->0,
{
    let ghost all = entries@;
    let mut sorted: Vec<ListItem> = Vec::new();
    for e in it: entries.into_iter()
        invariant
            it.seq() == all,
            sorted@ == sort_items(listed_entries(all.take(it.index() as int), prefix@, cursor@)),
    {
        let ghost i = it.index();
        let ghost before = all.take(i as int);
        assert(all.take(i + 1).drop_last() =~= before);
        assert(all.take(i + 1).last() == e);
        proof {
            lemma_sort_items_sorted(listed_entries(before, prefix@, cursor@));
        }
        let ghost now = all.take(i + 1);
        if listed(&e, prefix, cursor) {
            let p = insert_position(&sorted, &e);
            proof {
                lemma_insert_sorted_at(sorted@, e, p as int);
                let lb = listed_entries(before, prefix@, cursor@);
                assert(listed_entries(now, prefix@, cursor@) == lb.push(e));
                assert(lb.push(e).drop_last() =~= lb);
                assert(sort_items(lb.push(e)) == insert_sorted(sort_items(lb), e));
            }
            sorted.insert(p, e);
        } else {
            assert(listed_entries(now, prefix@, cursor@) == listed_entries(before, prefix@, cursor@));
        }
    }
    assert(all.take(all.len() as int) =~= all);
    let n = sorted.len();
    if n > limit {
        let next = if limit > 0 {
            Some(sorted[limit - 1].key.clone())
        } else {
            Some(String::from_str(cursor))
        };
        sorted.truncate(limit);
        (sorted, next)
    } else {
        (sorted, None)
    }
}

/* ---------------- the list request ---------------- */

/// The query of a list request; every part is optional.
#[derive(Debug)]
pub struct ListQuery {
    pub prefix: Option<String>,
    pub limit: Option<usize>,
    pub cursor: Option<String>,
}

/// A list request with its defaults applied.
#[derive(Debug)]
pub struct ListRequest {
    pub prefix: String,
    pub cursor: String,
    pub limit: usize,
}

/// The answer to a list request (status 200).
#[derive(Debug)]
pub struct ListResp {
    pub prefix: String,
    pub items: Vec<ListItem>,
    pub next_cursor: Option<String>,
}

/// The limit a list request asks for: 1000 by default, at most 10000.
pub open spec fn effective_limit(limit: Option<usize>) -> usize {
    let l = match limit {
        Some(l) => l,
        None => 1000,
    };
    if l < 10000 {
        l
    } else {
        10000
    }
}

/// The limit of a list request is the one asked for, cut to 10000, or 1000
/// when none is asked for: never more than asked, never more than 10000,
/// and exactly what was asked up to 10000.
pub proof fn lemma_limit_is_requested_capped(l: usize)
    ensures
        effective_limit(None) == 1000,
        effective_limit(Some(l)) <= l,
        effective_limit(Some(l)) <= 10000,
        l <= 10000 ==> effective_limit(Some(l)) == l,
        l > 10000 ==> effective_limit(Some(l)) == 10000,
{
}

/// Authorizes a list request (401 otherwise) and applies its defaults: an
/// empty prefix and cursor, and the limit of `effective_limit`.
pub fn list_request(header: Option<&str>, state: &AppState, q: ListQuery) -> (r: Result<
    ListRequest,
    ErrorResponse,
>)
    ensures
        r is Ok <==> authorized(header, *state.auth_token),
        r matches Err(e) ==> is_unauthorized(e),
        r matches Ok(req) ==> {
            &&& req.prefix@ == (match q.prefix {
                Some(p) => p@,
                None => Seq::<char>::empty(),
            })
            &&& req.cursor@ == (match q.cursor {
                Some(c) => c@,
                None => Seq::<char>::empty(),
            })
            &&& req.limit == effective_limit(q.limit)
        },
{
    require_auth(header, state)?;
    let prefix = match q.prefix {
        Some(p) => p,
        None => String::new(),
    };
    let cursor = match q.cursor {
        Some(c) => c,
        None => String::new(),
    };
    let requested = match q.limit {
        Some(l) => l,
        None => 1000,
    };
    let limit = if requested < 10000 {
        requested
    } else {
        10000
    };
    Ok(ListRequest { prefix, cursor, limit })
}

} // verus!
