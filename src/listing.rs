use vstd::prelude::*;
use vstd::string::*;

use crate::models::{id_option_view, RecordView, VaultFile};
use crate::store::{index_wf, views, VaultIndex};
use crate::xid::{compare_ids, id_lt, lemma_id_lt_asymmetric, lemma_id_lt_irreflexive, lemma_id_lt_transitive, Xid};

verus! {

/// The lower-case form of a text, as `str::to_lowercase` gives it.
pub uninterp spec fn lower_of(s: Seq<char>) -> Seq<char>;

/// Relies on `str::to_lowercase`: the result depends on the characters alone.
#[verifier::external_body]
fn lowercase(s: &str) -> (r: String)
    ensures
        r@ == lower_of(s@),
{
    s.to_lowercase()
}

/// `needle` occurs in `hay` as a run of consecutive characters.
pub open spec fn contains_text(hay: Seq<char>, needle: Seq<char>) -> bool {
    exists|i: int| 0 <= i && i + needle.len() <= hay.len() && #[trigger] hay.subrange(i, i + needle.len()) == needle
}

/// Whether `needle` occurs in `hay`.
pub fn text_contains(hay: &str, needle: &str) -> (r: bool)
    ensures
        r == contains_text(hay@, needle@),
{
    let n = hay.unicode_len();
    let m = needle.unicode_len();
    if m > n {
        return false;
    }
    let mut i: usize = 0;
    while i <= n - m
        invariant
            n == hay@.len(),
            m == needle@.len(),
            m <= n,
            i <= n - m + 1,
            forall|k: int| 0 <= k < i ==> #[trigger] hay@.subrange(k, k + m) != needle@,
        decreases n - m + 1 - i,
    {
        let mut j: usize = 0;
        let mut same = true;
        while j < m
            invariant
                n == hay@.len(),
                m == needle@.len(),
                i + m <= n,
                j <= m,
                same == (forall|t: int| 0 <= t < j ==> hay@[i + t] == needle@[t]),
            decreases m - j,
        {
            if same && hay.get_char(i + j) != needle.get_char(j) {
                same = false;
            }
            j = j + 1;
        }
        if same {
            assert(hay@.subrange(i as int, i + m) =~= needle@);
            return true;
        }
        proof {
            if hay@.subrange(i as int, i + m) == needle@ {
                assert forall|t: int| 0 <= t < m implies hay@[i + t] == needle@[t] by {
                    assert(hay@.subrange(i as int, i + m)[t] == needle@[t]);
                }
            }
        }
        i = i + 1;
    }
    false
}

/// Whether a record belongs to a listing: it has the given parent, comes after the
/// given identifier, and its lower-cased name holds the lower-cased search text.
pub open spec fn listed(
    r: RecordView,
    parent: Option<Seq<u8>>,
    after: Option<Seq<u8>>,
    search: Option<Seq<char>>,
) -> bool {
    &&& r.parent == parent
    &&& match after {
        Some(a) => id_lt(a, r.id),
        None => true,
    }
    &&& match search {
        Some(q) => contains_text(lower_of(r.name), lower_of(q)),
        None => true,
    }
}

/// Identifiers strictly ascend.
pub open spec fn ascending(s: Seq<RecordView>) -> bool {
    forall|i: int, j: int| 0 <= i < j < s.len() ==> id_lt((#[trigger] s[i]).id, (#[trigger] s[j]).id)
}

/// `out` is the listing of the index `s`: exactly the records that belong to it, in
/// ascending order of identifier.
pub open spec fn is_listing(
    s: Seq<RecordView>,
    parent: Option<Seq<u8>>,
    after: Option<Seq<u8>>,
    search: Option<Seq<char>>,
    out: Seq<RecordView>,
) -> bool {
    &&& ascending(out)
    &&& forall|r: RecordView| out.contains(r) <==> s.contains(r) && listed(r, parent, after, search)
}

/// Unicode white space, as `char::is_whitespace` reads it: U+0009 to U+000D, U+0020,
/// U+0085, U+00A0, U+1680, U+2000 to U+200A, U+2028, U+2029, U+202F, U+205F, U+3000.
pub open spec fn is_white_space(c: char) -> bool {
    ('\u{9}' <= c && c <= '\u{D}') || c == ' ' || c == '\u{85}' || c == '\u{A0}' || c == '\u{1680}'
        || ('\u{2000}' <= c && c <= '\u{200A}') || c == '\u{2028}' || c == '\u{2029}' || c
        == '\u{202F}' || c == '\u{205F}' || c == '\u{3000}'
}

/// `s` without its leading white space.
pub open spec fn trim_start_of(s: Seq<char>) -> Seq<char>
    decreases s.len(),
{
    if s.len() > 0 && is_white_space(s[0]) {
        trim_start_of(s.drop_first())
    } else {
        s
    }
}

/// `s` without its trailing white space.
pub open spec fn trim_end_of(s: Seq<char>) -> Seq<char>
    decreases s.len(),
{
    if s.len() > 0 && is_white_space(s.last()) {
        trim_end_of(s.drop_last())
    } else {
        s
    }
}

/// `s` without white space at either end.
pub open spec fn trimmed(s: Seq<char>) -> Seq<char> {
    trim_end_of(trim_start_of(s))
}

/// The search text that filters a listing: the given text without white space at its
/// ends, where anything is left; a blank or absent text does not filter.
pub open spec fn search_key(s: Option<&str>) -> Option<Seq<char>> {
    match s {
        Some(q) => if trimmed(q@).len() == 0 {
            None
        } else {
            Some(trimmed(q@))
        },
        None => None,
    }
}

fn white_space(c: char) -> (r: bool)
    ensures
        r == is_white_space(c),
{
    ('\u{9}' <= c && c <= '\u{D}') || c == ' ' || c == '\u{85}' || c == '\u{A0}' || c == '\u{1680}'
        || ('\u{2000}' <= c && c <= '\u{200A}') || c == '\u{2028}' || c == '\u{2029}' || c
        == '\u{202F}' || c == '\u{205F}' || c == '\u{3000}'
}

/// `s` without white space at either end.
pub fn trim_text(s: &str) -> (r: String)
    ensures
        r@ == trimmed(s@),
{
    let n = s.unicode_len();
    let mut a: usize = 0;
    assert(s@.subrange(0, n as int) =~= s@);
    while a < n && white_space(s.get_char(a))
        invariant
            n == s@.len(),
            a <= n,
            trim_start_of(s@) == trim_start_of(s@.subrange(a as int, n as int)),
        decreases n - a,
    {
        assert(s@.subrange(a as int, n as int).drop_first() =~= s@.subrange(a + 1, n as int));
        a = a + 1;
    }
    let ghost t = s@.subrange(a as int, n as int);
    assert(trim_start_of(t) == t) by {
        if t.len() > 0 {
            assert(t[0] == s@[a as int]);
        }
    }
    let mut b: usize = n;
    assert(t.subrange(0, (b - a) as int) =~= t);
    while b > a && white_space(s.get_char(b - 1))
        invariant
            n == s@.len(),
            a <= b <= n,
            t == s@.subrange(a as int, n as int),
            trim_end_of(t) == trim_end_of(s@.subrange(a as int, b as int)),
        decreases b,
    {
        assert(s@.subrange(a as int, b as int).drop_last() =~= s@.subrange(a as int, b - 1));
        b = b - 1;
    }
    let ghost u = s@.subrange(a as int, b as int);
    assert(trim_end_of(u) == u) by {
        if u.len() > 0 {
            assert(u.last() == s@[b - 1]);
        }
    }
    String::from_str(s.substring_char(a, b))
}

/// Two ascending sequences with the same records are the same sequence.
pub proof fn lemma_ascending_unique(a: Seq<RecordView>, b: Seq<RecordView>)
    requires
        ascending(a),
        ascending(b),
        forall|i: int| 0 <= i < a.len() ==> (#[trigger] a[i]).id.len() == 12,
        forall|r: RecordView| a.contains(r) <==> b.contains(r),
    ensures
        a == b,
    decreases a.len(),
{
    if a.len() == 0 {
        if b.len() > 0 {
            assert(b.contains(b[0]));
        }
        assert(a =~= b);
    } else {
        assert(a.contains(a[0]));
        let m = choose|m: int| 0 <= m < b.len() && b[m] == a[0];
        assert(b.contains(b[0]));
        let n = choose|n: int| 0 <= n < a.len() && a[n] == b[0];
        if m > 0 {
            assert(id_lt(b[0].id, b[m].id));
            if n > 0 {
                assert(id_lt(a[0].id, a[n].id));
                lemma_id_lt_asymmetric(a[0].id, a[n].id);
            } else {
                lemma_id_lt_irreflexive(a[0].id);
            }
        }
        assert(a[0] == b[0]);
        let a1 = a.drop_first();
        let b1 = b.drop_first();
        assert forall|r: RecordView| a1.contains(r) <==> b1.contains(r) by {
            if a1.contains(r) {
                let j = choose|j: int| 0 <= j < a1.len() && a1[j] == r;
                assert(a[j + 1] == r);
                assert(id_lt(a[0].id, a[j + 1].id));
                lemma_id_lt_irreflexive(r.id);
                assert(a.contains(r));
                let k = choose|k: int| 0 <= k < b.len() && b[k] == r;
                assert(k != 0);
                assert(b1[k - 1] == r);
            }
            if b1.contains(r) {
                let j = choose|j: int| 0 <= j < b1.len() && b1[j] == r;
                assert(b[j + 1] == r);
                assert(id_lt(b[0].id, b[j + 1].id));
                lemma_id_lt_irreflexive(r.id);
                assert(b.contains(r));
                let k = choose|k: int| 0 <= k < a.len() && a[k] == r;
                assert(k != 0);
                assert(a1[k - 1] == r);
            }
        }
        lemma_ascending_unique(a1, b1);
        assert(a =~= seq![a[0]] + a1);
        assert(b =~= seq![b[0]] + b1);
    }
}

/// Paging through a listing: asking for the records after the last one of a page
/// gives exactly the rest of the listing, for any page size, so no record is repeated
/// or skipped.
pub proof fn lemma_pagination(
    s: Seq<RecordView>,
    vault: Seq<u8>,
    parent: Option<Seq<u8>>,
    after: Option<Seq<u8>>,
    search: Option<Seq<char>>,
    full: Seq<RecordView>,
    k: int,
    rest: Seq<RecordView>,
)
    requires
        index_wf(s, vault),
        after is Some ==> after->0.len() == 12,
        is_listing(s, parent, after, search, full),
        0 < k <= full.len(),
        is_listing(s, parent, Some(full[k - 1].id), search, rest),
    ensures
        rest == full.skip(k),
{
    let last = full[k - 1];
    let tail = full.skip(k);
    assert(full.contains(last));
    assert forall|i: int| 0 <= i < full.len() implies (#[trigger] full[i]).id.len() == 12 by {
        assert(full.contains(full[i]));
        let j = choose|j: int| 0 <= j < s.len() && s[j] == full[i];
    }
    assert forall|r: RecordView| tail.contains(r) <==> rest.contains(r) by {
        if tail.contains(r) {
            let j = choose|j: int| 0 <= j < tail.len() && tail[j] == r;
            assert(full[k + j] == r);
            assert(id_lt(last.id, full[k + j].id));
            assert(full.contains(r));
        }
        if rest.contains(r) {
            assert(s.contains(r));
            let t = choose|t: int| 0 <= t < s.len() && s[t] == r;
            assert(r.id.len() == 12);
            if after is Some {
                lemma_id_lt_transitive(after->0, last.id, r.id);
            }
            assert(full.contains(r));
            let m = choose|m: int| 0 <= m < full.len() && full[m] == r;
            if m < k - 1 {
                assert(id_lt(full[m].id, last.id));
                lemma_id_lt_asymmetric(full[m].id, last.id);
            } else if m == k - 1 {
                lemma_id_lt_irreflexive(r.id);
            }
            assert(tail[m - k] == r);
        }
    }
    assert forall|i: int, j: int| 0 <= i < j < tail.len() implies id_lt((#[trigger] tail[i]).id, (#[trigger] tail[j]).id) by {
        assert(tail[i] == full[i + k]);
        assert(tail[j] == full[j + k]);
    }
    assert forall|i: int| 0 <= i < tail.len() implies (#[trigger] tail[i]).id.len() == 12 by {
        assert(tail[i] == full[i + k]);
    }
    lemma_ascending_unique(tail, rest);
}

/// Lists the records of a vault that have the given parent (`None`: the direct children
/// of the root), that come after `after` when it is given, and whose name holds the
/// search text, trimmed and ignoring case (a blank search does not filter); in
/// ascending order of identifier.
pub fn list_vault_files(
    index: &VaultIndex,
    parent: Option<Xid>,
    after: Option<Xid>,
    search: Option<&str>,
) -> (r: Vec<VaultFile>)
    requires
        index.wf(),
    ensures
        is_listing(index@, id_option_view(parent), id_option_view(after), search_key(search), views(r@)),
{
    let records = index.records();
    let ghost s = index@;
    let ghost pv = id_option_view(parent);
    let ghost av = id_option_view(after);
    let ghost sv = search_key(search);
    let query: Option<String> = match search {
        Some(q) => {
            let t = trim_text(q);
            if t.unicode_len() == 0 {
                None
            } else {
                Some(lowercase(t.as_str()))
            }
        },
        None => None,
    };
    let mut out: Vec<VaultFile> = Vec::new();
    let mut i: usize = 0;
    while i < records.len()
        invariant
            i <= records@.len(),
            views(records@) == s,
            index_wf(s, index.vault()),
            pv == id_option_view(parent),
            av == id_option_view(after),
            sv == search_key(search),
            match sv {
                Some(q) => query is Some && query->0@ == lower_of(q),
                None => query is None,
            },
            ascending(views(out@)),
            forall|r: RecordView|
                views(out@).contains(r) <==> s.take(i as int).contains(r) && listed(r, pv, av, sv),
        decreases records@.len() - i,
    {
        let rec = &records[i];
        assert(s[i as int] == rec@);
        let parent_ok = match (parent, rec.parent_id) {
            (None, None) => true,
            (Some(p), Some(q)) => compare_ids(&p, &q) == 0,
            _ => false,
        };
        let after_ok = match after {
            None => true,
            Some(a) => compare_ids(&a, &rec.id) < 0,
        };
        let search_ok = match &query {
            None => true,
            Some(q) => {
                let name = lowercase(rec.name.as_str());
                text_contains(name.as_str(), q.as_str())
            },
        };
        let ghost o = views(out@);
        let ghost s_prev = s.take(i as int);
        let ghost s_next = s.take(i + 1);
        proof {
            assert(s_next =~= s_prev.push(s[i as int]));
        }
        if parent_ok && after_ok && search_ok {
            assert(listed(rec@, pv, av, sv));
            let mut j: usize = 0;
            let mut stop = false;
            while j < out.len() && !stop
                invariant
                    j <= out@.len(),
                    stop ==> j < out@.len() && id_lt(rec@.id, o[j as int].id),
                    o == views(out@),
                    ascending(o),
                    forall|m: int| 0 <= m < j ==> id_lt(o[m].id, rec@.id),
                    views(records@) == s,
                    i < s.len(),
                    rec@ == s[i as int],
                    index_wf(s, index.vault()),
                    forall|r: RecordView| o.contains(r) ==> s.take(i as int).contains(r),
                decreases out@.len() - j + (if stop { 0int } else { 1int }),
            {
                let c = compare_ids(&out[j].id, &rec.id);
                proof {
                    if c == 0 {
                        assert(o.contains(o[j as int]));
                        let t = choose|t: int| 0 <= t < i && s_prev[t] == o[j as int];
                        assert(s[t] == o[j as int]);
                    }
                }
                if c > 0 {
                    stop = true;
                } else {
                    j = j + 1;
                }
            }
            proof {
                if j < out@.len() {
                    let c = j as int;
                    assert(id_lt(rec@.id, o[c].id));
                }
            }
            out.insert(j, rec.duplicate());
            proof {
                let o2 = views(out@);
                assert(o2 =~= o.insert(j as int, rec@));
                assert forall|a: int, b: int| 0 <= a < b < o2.len() implies id_lt((#[trigger] o2[a]).id, (#[trigger] o2[b]).id) by {
                    assert forall|m: int| 0 <= m < o.len() implies (#[trigger] o[m]).id.len() == 12 by {
                        assert(o.contains(o[m]));
                        let t = choose|t: int| 0 <= t < i && s_prev[t] == o[m];
                        assert(s[t] == o[m]);
                    }
                    assert(s[i as int].id.len() == 12);
                    if b < j {
                        assert(o2[a] == o[a] && o2[b] == o[b]);
                    } else if b == j {
                        assert(o2[a] == o[a]);
                    } else if a == j {
                        assert(o2[b] == o[b - 1]);
                        if b - 1 > j {
                            lemma_id_lt_transitive(rec@.id, o[j as int].id, o[b - 1].id);
                        }
                    } else if a < j {
                        assert(o2[a] == o[a]);
                        assert(o2[b] == o[b - 1]);
                    } else {
                        assert(o2[a] == o[a - 1]);
                        assert(o2[b] == o[b - 1]);
                    }
                }
                assert forall|r: RecordView| o2.contains(r) <==> s_next.contains(r) && listed(r, pv, av, sv) by {
                    if o2.contains(r) {
                        let m = choose|m: int| 0 <= m < o2.len() && o2[m] == r;
                        if m < j {
                            assert(o.contains(o[m]));
                        } else if m > j {
                            assert(o2[m] == o[m - 1]);
                            assert(o.contains(o[m - 1]));
                        } else {
                            assert(s_next[i as int] == r);
                        }
                    }
                    if s_next.contains(r) && listed(r, pv, av, sv) {
                        let m = choose|m: int| 0 <= m < i + 1 && s_next[m] == r;
                        if m < i {
                            assert(s_prev[m] == r);
                            assert(o.contains(r));
                            let q = choose|q: int| 0 <= q < o.len() && o[q] == r;
                            if q < j {
                                assert(o2[q] == r);
                            } else {
                                assert(o2[q + 1] == r);
                            }
                        } else {
                            assert(o2[j as int] == r);
                        }
                    }
                }
            }
        } else {
            proof {
                assert(!listed(s[i as int], pv, av, sv));
                assert forall|r: RecordView| o.contains(r) <==> s_next.contains(r) && listed(r, pv, av, sv) by {
                    if s_next.contains(r) && listed(r, pv, av, sv) {
                        let m = choose|m: int| 0 <= m < i + 1 && s_next[m] == r;
                        if m < i {
                            assert(s_prev[m] == r);
                        }
                    }
                    if o.contains(r) {
                        let m = choose|m: int| 0 <= m < i && s_prev[m] == r;
                        assert(s_next[m] == r);
                    }
                }
            }
        }
        i = i + 1;
    }
    assert(s.take(records@.len() as int) =~= s);
    out
}

} // verus!
