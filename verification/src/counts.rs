//! Token frequency counting and merging of partial counts.
//!
//! A count table maps each token that occurred to its multiplicity. Tables
//! built per file are merged by pointwise addition, which is commutative
//! and associative, so the order in which partial counts are merged never
//! changes the final table.

use vstd::prelude::*;

verus! {

/// Number of occurrences of `t` in `toks`.
pub open spec fn token_count(toks: Seq<Seq<char>>, t: Seq<char>) -> nat
    decreases toks.len(),
{
    if toks.len() == 0 {
        0
    } else {
        token_count(toks.drop_last(), t) + if toks.last() == t {
            1nat
        } else {
            0nat
        }
    }
}

/// The frequency table of a token sequence: every token that occurs maps
/// to its multiplicity.
pub open spec fn counts_of(toks: Seq<Seq<char>>) -> Map<Seq<char>, nat> {
    Map::new(|t: Seq<char>| toks.contains(t), |t: Seq<char>| token_count(toks, t))
}

/// Pointwise sum of two frequency tables.
pub open spec fn add_counts(a: Map<Seq<char>, nat>, b: Map<Seq<char>, nat>) -> Map<
    Seq<char>,
    nat,
> {
    Map::new(
        |t: Seq<char>| a.dom().contains(t) || b.dom().contains(t),
        |t: Seq<char>|
            (if a.dom().contains(t) {
                a[t]
            } else {
                0nat
            }) + (if b.dom().contains(t) {
                b[t]
            } else {
                0nat
            }),
    )
}

/// One more occurrence of `t` added to the table.
pub open spec fn with_one(m: Map<Seq<char>, nat>, t: Seq<char>) -> Map<Seq<char>, nat> {
    m.insert(
        t,
        (if m.dom().contains(t) {
            m[t]
        } else {
            0nat
        }) + 1,
    )
}

/// `c` more occurrences of `t` added to the table.
pub open spec fn with_more(m: Map<Seq<char>, nat>, t: Seq<char>, c: nat) -> Map<Seq<char>, nat> {
    m.insert(
        t,
        (if m.dom().contains(t) {
            m[t]
        } else {
            0nat
        }) + c,
    )
}

/// Merging partial counts is commutative: workers' tables may be combined
/// in any order.
pub proof fn lemma_merge_commutative(a: Map<Seq<char>, nat>, b: Map<Seq<char>, nat>)
    ensures
        add_counts(a, b) == add_counts(b, a),
{
    assert(add_counts(a, b) =~= add_counts(b, a));
}

/// Merging partial counts is associative: any grouping of the workers'
/// tables gives the same result.
pub proof fn lemma_merge_associative(
    a: Map<Seq<char>, nat>,
    b: Map<Seq<char>, nat>,
    c: Map<Seq<char>, nat>,
)
    ensures
        add_counts(add_counts(a, b), c) == add_counts(a, add_counts(b, c)),
{
    assert(add_counts(add_counts(a, b), c) =~= add_counts(a, add_counts(b, c)));
}

/// Counting a concatenation equals merging the two counts: a sequential
/// scan over all files and a merge of per-file counts agree.
pub proof fn lemma_counts_of_concat(t1: Seq<Seq<char>>, t2: Seq<Seq<char>>)
    ensures
        counts_of(t1 + t2) == add_counts(counts_of(t1), counts_of(t2)),
    decreases t2.len(),
{
    if t2.len() == 0 {
        assert(t1 + t2 =~= t1);
        assert(counts_of(t1 + t2) =~= add_counts(counts_of(t1), counts_of(t2)));
    } else {
        lemma_counts_of_concat(t1, t2.drop_last());
        assert((t1 + t2).drop_last() =~= t1 + t2.drop_last());
        lemma_counts_of_push(t1 + t2.drop_last(), t2.last());
        assert((t1 + t2.drop_last()).push(t2.last()) =~= t1 + t2);
        lemma_counts_of_push(t2.drop_last(), t2.last());
        assert(t2.drop_last().push(t2.last()) =~= t2);
        assert(counts_of(t1 + t2) =~= add_counts(counts_of(t1), counts_of(t2)));
    }
}

/// A token that never occurs has count zero.
pub proof fn lemma_token_count_absent(s: Seq<Seq<char>>, t: Seq<char>)
    requires
        !s.contains(t),
    ensures
        token_count(s, t) == 0,
    decreases s.len(),
{
    if s.len() > 0 {
        assert(!s.drop_last().contains(t)) by {
            if s.drop_last().contains(t) {
                let i = choose|i: int| 0 <= i < s.drop_last().len() && s.drop_last()[i] == t;
                assert(s[i] == t);
            }
        }
        assert(s[s.len() - 1] == s.last());
        lemma_token_count_absent(s.drop_last(), t);
    }
}

/// Appending one token bumps exactly its count.
pub proof fn lemma_counts_of_push(s: Seq<Seq<char>>, t: Seq<char>)
    ensures
        counts_of(s.push(t)) == with_one(counts_of(s), t),
{
    let l = counts_of(s.push(t));
    let r = with_one(counts_of(s), t);
    assert(s.push(t).drop_last() =~= s);
    assert forall|x: Seq<char>| #[trigger] s.push(t).contains(x) implies (s.contains(x) || x
        == t) by {
        let i = choose|i: int| 0 <= i < s.push(t).len() && s.push(t)[i] == x;
        if i < s.len() {
            assert(s[i] == x);
        }
    }
    assert forall|x: Seq<char>| s.contains(x) implies #[trigger] s.push(t).contains(x) by {
        let i = choose|i: int| 0 <= i < s.len() && s[i] == x;
        assert(s.push(t)[i] == x);
    }
    assert(s.push(t)[s.len() as int] == t);
    assert(s.push(t).contains(t));
    assert forall|x: Seq<char>| l.dom().contains(x) implies l[x] == r[x] by {
        assert(token_count(s.push(t), x) == token_count(s, x) + if x == t {
            1nat
        } else {
            0nat
        });
        if x == t && !s.contains(t) {
            lemma_token_count_absent(s, t);
        }
    }
    assert(l =~= r);
}

/// Merging a list of partial count tables, one after the other.
pub open spec fn merge_all(maps: Seq<Map<Seq<char>, nat>>) -> Map<Seq<char>, nat>
    decreases maps.len(),
{
    if maps.len() == 0 {
        Map::empty()
    } else {
        add_counts(merge_all(maps.drop_last()), maps.last())
    }
}

proof fn lemma_merge_all_pull(maps: Seq<Map<Seq<char>, nat>>, i: int)
    requires
        0 <= i < maps.len(),
    ensures
        merge_all(maps) == add_counts(merge_all(maps.remove(i)), maps[i]),
    decreases maps.len(),
{
    if i == maps.len() - 1 {
        assert(maps.remove(i) =~= maps.drop_last());
    } else {
        let dl = maps.drop_last();
        let rest = merge_all(dl.remove(i));
        lemma_merge_all_pull(dl, i);
        assert(maps.remove(i).drop_last() =~= dl.remove(i));
        assert(maps.remove(i).last() == maps.last());
        lemma_merge_associative(rest, dl[i], maps.last());
        lemma_merge_commutative(dl[i], maps.last());
        lemma_merge_associative(rest, maps.last(), dl[i]);
        assert(dl[i] == maps[i]);
    }
}

/// Partial counts may be merged in any order: two lists holding the same
/// tables, however arranged, merge to the same final table. Together
/// with `lemma_counts_of_concat` this makes the scan independent of how
/// files are dealt out to workers and joined.
pub proof fn lemma_merge_any_order(m1: Seq<Map<Seq<char>, nat>>, m2: Seq<Map<Seq<char>, nat>>)
    requires
        m1.to_multiset() == m2.to_multiset(),
    ensures
        merge_all(m1) == merge_all(m2),
    decreases m1.len(),
{
    broadcast use vstd::seq_lib::group_to_multiset_ensures;

    assert(m1.to_multiset().len() == m1.len());
    assert(m2.to_multiset().len() == m2.len());
    if m1.len() == 0 {
    } else {
        let x = m1.last();
        assert(m1[m1.len() - 1] == x);
        assert(m1.contains(x));
        assert(m1.to_multiset().count(x) > 0);
        assert(m2.to_multiset().count(x) > 0);
        assert(m2.contains(x));
        let i = choose|i: int| 0 <= i < m2.len() && m2[i] == x;
        lemma_merge_all_pull(m2, i);
        assert(m1.drop_last().push(x) =~= m1);
        assert(m1.drop_last().to_multiset().insert(x) == m1.to_multiset());
        assert(m1.drop_last().to_multiset() =~= m1.to_multiset().remove(x));
        assert(m2.remove(i).to_multiset() == m2.to_multiset().remove(x));
        lemma_merge_any_order(m1.drop_last(), m2.remove(i));
    }
}

/// Byte-wise lexicographic order on UTF-8 byte sequences.
pub open spec fn lex_le_bytes(a: Seq<u8>, b: Seq<u8>) -> bool
    decreases a.len(),
{
    if a.len() == 0 {
        true
    } else if b.len() == 0 {
        false
    } else if a[0] < b[0] {
        true
    } else if a[0] > b[0] {
        false
    } else {
        lex_le_bytes(a.skip(1), b.skip(1))
    }
}

/// The vocabulary order: by descending count; equal counts are broken
/// deterministically by ascending byte order of the token, so the
/// vocabulary index assignment is reproducible across runs.
pub open spec fn count_order(x: (String, u64), y: (String, u64)) -> bool {
    x.1 > y.1 || (x.1 == y.1 && lex_le_bytes(
        vstd::utf8::encode_utf8(x.0@),
        vstd::utf8::encode_utf8(y.0@),
    ))
}

/// Every pair of positions is ordered.
pub open spec fn sorted_entries(s: Seq<(String, u64)>) -> bool {
    forall|i: int, j: int| 0 <= i < j < s.len() ==> count_order(s[i], s[j])
}

proof fn lemma_lex_skip(a: Seq<u8>, b: Seq<u8>, i: int)
    requires
        0 <= i <= a.len(),
        i <= b.len(),
        forall|j: int| 0 <= j < i ==> a[j] == b[j],
    ensures
        lex_le_bytes(a, b) == lex_le_bytes(a.skip(i), b.skip(i)),
    decreases i,
{
    if i == 0 {
        assert(a.skip(0) =~= a);
        assert(b.skip(0) =~= b);
    } else {
        assert(a[0] == b[0]);
        lemma_lex_skip(a.skip(1), b.skip(1), i - 1);
        assert(a.skip(1).skip(i - 1) =~= a.skip(i));
        assert(b.skip(1).skip(i - 1) =~= b.skip(i));
    }
}

/// The byte order is antisymmetric: two byte sequences each no later
/// than the other are the same.
pub proof fn lemma_lex_antisym(a: Seq<u8>, b: Seq<u8>)
    requires
        lex_le_bytes(a, b),
        lex_le_bytes(b, a),
    ensures
        a == b,
    decreases a.len(),
{
    if a.len() == 0 {
        assert(a =~= b);
    } else {
        assert(a[0] == b[0]);
        lemma_lex_antisym(a.skip(1), b.skip(1));
        assert forall|i: int| 0 <= i < a.len() implies a[i] == b[i] by {
            if i > 0 {
                assert(a.skip(1)[i - 1] == b.skip(1)[i - 1]);
            }
        }
        assert(a =~= b);
    }
}

proof fn lemma_lex_total(a: Seq<u8>, b: Seq<u8>)
    ensures
        lex_le_bytes(a, b) || lex_le_bytes(b, a),
    decreases a.len(),
{
    if a.len() > 0 && b.len() > 0 && a[0] == b[0] {
        lemma_lex_total(a.skip(1), b.skip(1));
    }
}

proof fn lemma_lex_trans(a: Seq<u8>, b: Seq<u8>, c: Seq<u8>)
    requires
        lex_le_bytes(a, b),
        lex_le_bytes(b, c),
    ensures
        lex_le_bytes(a, c),
    decreases a.len(),
{
    if a.len() > 0 && b.len() > 0 && c.len() > 0 && a[0] == b[0] && b[0] == c[0] {
        lemma_lex_trans(a.skip(1), b.skip(1), c.skip(1));
    }
}

proof fn lemma_count_order_total(x: (String, u64), y: (String, u64))
    ensures
        count_order(x, y) || count_order(y, x),
{
    lemma_lex_total(vstd::utf8::encode_utf8(x.0@), vstd::utf8::encode_utf8(y.0@));
}

proof fn lemma_count_order_trans(x: (String, u64), y: (String, u64), z: (String, u64))
    requires
        count_order(x, y),
        count_order(y, z),
    ensures
        count_order(x, z),
{
    if x.1 == y.1 && y.1 == z.1 {
        lemma_lex_trans(
            vstd::utf8::encode_utf8(x.0@),
            vstd::utf8::encode_utf8(y.0@),
            vstd::utf8::encode_utf8(z.0@),
        );
    }
}

/// Compares two tokens by their UTF-8 bytes.
fn lex_le(a: &str, b: &str) -> (r: bool)
    ensures
        r == lex_le_bytes(vstd::utf8::encode_utf8(a@), vstd::utf8::encode_utf8(b@)),
{
    let ab = a.as_bytes();
    let bb = b.as_bytes();
    let n = if ab.len() < bb.len() {
        ab.len()
    } else {
        bb.len()
    };
    for i in 0..n
        invariant
            ab@ == vstd::utf8::encode_utf8(a@),
            bb@ == vstd::utf8::encode_utf8(b@),
            n <= ab@.len(),
            n <= bb@.len(),
            n == ab@.len() || n == bb@.len(),
            forall|j: int| 0 <= j < i ==> ab@[j] == bb@[j],
    {
        let x = ab[i];
        let y = bb[i];
        if x < y {
            proof {
                lemma_lex_skip(ab@, bb@, i as int);
                assert(ab@.skip(i as int)[0] == ab@[i as int]);
                assert(bb@.skip(i as int)[0] == bb@[i as int]);
            }
            return true;
        }
        if x > y {
            proof {
                lemma_lex_skip(ab@, bb@, i as int);
                assert(ab@.skip(i as int)[0] == ab@[i as int]);
                assert(bb@.skip(i as int)[0] == bb@[i as int]);
            }
            return false;
        }
    }
    proof {
        lemma_lex_skip(ab@, bb@, n as int);
    }
    ab.len() <= bb.len()
}

/// Compares two counted tokens in the vocabulary order.
fn order_before(x: &(String, u64), y: &(String, u64)) -> (r: bool)
    ensures
        r == count_order(*x, *y),
{
    if x.1 > y.1 {
        true
    } else if x.1 < y.1 {
        false
    } else {
        lex_le(x.0.as_str(), y.0.as_str())
    }
}

/// Position at which `e` belongs in the sorted list `out`.
fn find_pos(out: &Vec<(String, u64)>, e: &(String, u64)) -> (p: usize)
    requires
        sorted_entries(out@),
    ensures
        p <= out@.len(),
        forall|i: int| 0 <= i < p ==> count_order(out@[i], *e),
        forall|i: int| p <= i < out@.len() ==> count_order(*e, out@[i]),

{
    let n = out.len();
    for p in 0..n
        invariant
            n == out@.len(),
            sorted_entries(out@),
            forall|i: int| 0 <= i < p ==> count_order(out@[i], *e),
    {
        if !order_before(&out[p], e) {
            proof {
                lemma_count_order_total(out@[p as int], *e);
                assert forall|i: int| p <= i < out@.len() implies count_order(*e, out@[i]) by {
                    if i > p {
                        lemma_count_order_trans(*e, out@[p as int], out@[i]);
                    }
                }
            }
            return p;
        }
    }
    n
}

proof fn lemma_insert_to_multiset(s: Seq<(String, u64)>, p: int, e: (String, u64))
    requires
        0 <= p <= s.len(),
    ensures
        s.insert(p, e).to_multiset() == s.to_multiset().insert(e),
{
    broadcast use vstd::seq_lib::group_to_multiset_ensures;

    let s2 = s.insert(p, e);
    assert(s2.remove(p) =~= s);
    assert(s2[p] == e);
    assert(s2.to_multiset().remove(e) == s.to_multiset());
    assert(s2.contains(e));
    assert(s2.to_multiset().count(e) > 0);
    assert(s2.to_multiset() =~= s.to_multiset().insert(e));
}

/// A sorted rearrangement of entries with distinct keys keeps the keys
/// distinct.
pub proof fn lemma_rearranged_keys_distinct(s: Seq<(String, u64)>, r: Seq<(String, u64)>)
    requires
        distinct_keys(s),
        r.to_multiset() == s.to_multiset(),
    ensures
        distinct_keys(r),
{
    broadcast use vstd::seq_lib::group_to_multiset_ensures;

    assert(s.no_duplicates());
    s.lemma_multiset_has_no_duplicates();
    assert forall|i: int, j: int| 0 <= i < j < r.len() implies r[i].0@ != r[j].0@ by {
        if r[i].0@ == r[j].0@ {
            assert(r.contains(r[i]));
            assert(r.contains(r[j]));
            assert(r.to_multiset().count(r[i]) > 0);
            assert(r.to_multiset().count(r[j]) > 0);
            assert(s.to_multiset().count(r[i]) > 0);
            assert(s.to_multiset().count(r[j]) > 0);
            assert(s.contains(r[i]));
            assert(s.contains(r[j]));
            let k1 = choose|k: int| 0 <= k < s.len() && s[k] == r[i];
            let k2 = choose|k: int| 0 <= k < s.len() && s[k] == r[j];
            assert(k1 == k2);
            assert(r[i] == r[j]);
            let r2 = r.remove(j);
            assert(r2.to_multiset() == r.to_multiset().remove(r[j]));
            assert(r2[i] == r[i]);
            assert(r2.contains(r[i]));
            assert(r2.to_multiset().count(r[i]) > 0);
            assert(r.to_multiset().count(r[i]) >= 2);
            assert(s.to_multiset().count(r[i]) == 1);
        }
    }
}

/// A sorted rearrangement of a table's entries still carries exactly the
/// table's keys and counts.
pub proof fn lemma_rearranged_reflects_table(s: Seq<(String, u64)>, r: Seq<(String, u64)>)
    requires
        distinct_keys(s),
        r.to_multiset() == s.to_multiset(),
    ensures
        r.len() == s.len(),
        forall|k: int|
            0 <= k < r.len() ==> table_map(s).dom().contains((#[trigger] r[k]).0@) && table_map(
                s,
            )[r[k].0@] == r[k].1 as nat,
        forall|t: Seq<char>|
            #[trigger] table_map(s).dom().contains(t) ==> exists|k: int|
                0 <= k < r.len() && (#[trigger] r[k]).0@ == t,
{
    broadcast use vstd::seq_lib::group_to_multiset_ensures;

    assert(r.to_multiset().len() == r.len());
    assert(s.to_multiset().len() == s.len());
    assert forall|k: int| 0 <= k < r.len() implies table_map(s).dom().contains(
        (#[trigger] r[k]).0@,
    ) && table_map(s)[r[k].0@] == r[k].1 as nat by {
        assert(r.contains(r[k]));
        assert(r.to_multiset().count(r[k]) > 0);
        assert(s.to_multiset().count(r[k]) > 0);
        assert(s.contains(r[k]));
        let i = choose|i: int| 0 <= i < s.len() && s[i] == r[k];
        lemma_table_map_index(s, i);
    }
    assert forall|t: Seq<char>| #[trigger] table_map(s).dom().contains(t) implies exists|k: int|
        0 <= k < r.len() && (#[trigger] r[k]).0@ == t by {
        assert(exists|i: int| 0 <= i < s.len() && (#[trigger] s[i]).0@ == t) by {
            if forall|i: int| 0 <= i < s.len() ==> (#[trigger] s[i]).0@ != t {
                lemma_table_map_absent(s, t);
            }
        }
        let i = choose|i: int| 0 <= i < s.len() && (#[trigger] s[i]).0@ == t;
        assert(s.contains(s[i]));
        assert(s.to_multiset().count(s[i]) > 0);
        assert(r.to_multiset().count(s[i]) > 0);
        assert(r.contains(s[i]));
        let k = choose|k: int| 0 <= k < r.len() && r[k] == s[i];
        assert(r[k].0@ == t);
    }
}

/// An exec frequency table: distinct token keys, each with a positive
/// count, plus the running sum of all counts.
pub struct CountTable {
    pub entries: Vec<(String, u64)>,
    pub total: u64,
}

/// The keys of the entries are pairwise distinct.
pub open spec fn distinct_keys(s: Seq<(String, u64)>) -> bool {
    forall|i: int, j: int| 0 <= i < j < s.len() ==> s[i].0@ != s[j].0@
}

/// Sum of all counts in the entry list.
pub open spec fn entries_total(s: Seq<(String, u64)>) -> nat
    decreases s.len(),
{
    if s.len() == 0 {
        0
    } else {
        entries_total(s.drop_last()) + s.last().1 as nat
    }
}

/// The frequency table an entry list denotes.
pub open spec fn table_map(s: Seq<(String, u64)>) -> Map<Seq<char>, nat>
    decreases s.len(),
{
    if s.len() == 0 {
        Map::empty()
    } else {
        table_map(s.drop_last()).insert(s.last().0@, s.last().1 as nat)
    }
}

impl View for CountTable {
    type V = Map<Seq<char>, nat>;

    open spec fn view(&self) -> Map<Seq<char>, nat> {
        table_map(self.entries@)
    }
}

proof fn lemma_table_map_contains(s: Seq<(String, u64)>, k: int)
    requires
        0 <= k < s.len(),
    ensures
        table_map(s).dom().contains(s[k].0@),
    decreases s.len(),
{
    if k < s.len() - 1 {
        lemma_table_map_contains(s.drop_last(), k);
    }
}

proof fn lemma_table_map_absent(s: Seq<(String, u64)>, t: Seq<char>)
    requires
        forall|i: int| 0 <= i < s.len() ==> #[trigger] s[i].0@ != t,
    ensures
        !table_map(s).dom().contains(t),
    decreases s.len(),
{
    if s.len() > 0 {
        lemma_table_map_absent(s.drop_last(), t);
    }
}

proof fn lemma_table_map_index(s: Seq<(String, u64)>, k: int)
    requires
        distinct_keys(s),
        0 <= k < s.len(),
    ensures
        table_map(s).dom().contains(s[k].0@),
        table_map(s)[s[k].0@] == s[k].1 as nat,
    decreases s.len(),
{
    if k == s.len() - 1 {
    } else {
        lemma_table_map_index(s.drop_last(), k);
        assert(s[k].0@ != s.last().0@);
    }
}

proof fn lemma_table_map_update(s: Seq<(String, u64)>, k: int, e: (String, u64))
    requires
        distinct_keys(s),
        0 <= k < s.len(),
        e.0@ == s[k].0@,
    ensures
        table_map(s.update(k, e)) == table_map(s).insert(s[k].0@, e.1 as nat),
    decreases s.len(),
{
    let su = s.update(k, e);
    if k == s.len() - 1 {
        assert(su.drop_last() =~= s.drop_last());
        assert(su.last() == e);
        assert(table_map(su) =~= table_map(s).insert(s[k].0@, e.1 as nat));
    } else {
        lemma_table_map_update(s.drop_last(), k, e);
        assert(su.drop_last() =~= s.drop_last().update(k, e));
        assert(su.last() == s.last());
        assert(s[k].0@ != s.last().0@);
        assert(table_map(su) =~= table_map(s).insert(s[k].0@, e.1 as nat));
    }
}

proof fn lemma_entries_total_update(s: Seq<(String, u64)>, k: int, e: (String, u64))
    requires
        0 <= k < s.len(),
    ensures
        entries_total(s.update(k, e)) + s[k].1 == entries_total(s) + e.1,
    decreases s.len(),
{
    let su = s.update(k, e);
    if k == s.len() - 1 {
        assert(su.drop_last() =~= s.drop_last());
    } else {
        lemma_entries_total_update(s.drop_last(), k, e);
        assert(su.drop_last() =~= s.drop_last().update(k, e));
        assert(su.last() == s.last());
    }
}

proof fn lemma_entry_le_total(s: Seq<(String, u64)>, k: int)
    requires
        0 <= k < s.len(),
    ensures
        s[k].1 <= entries_total(s),
    decreases s.len(),
{
    if k < s.len() - 1 {
        lemma_entry_le_total(s.drop_last(), k);
    }
}

proof fn lemma_entries_total_take(s: Seq<(String, u64)>, k: int)
    requires
        0 <= k <= s.len(),
    ensures
        entries_total(s.take(k)) <= entries_total(s),
    decreases s.len() - k,
{
    if k == s.len() {
        assert(s.take(k) =~= s);
    } else {
        lemma_entries_total_take(s, k + 1);
        assert(s.take(k + 1).drop_last() =~= s.take(k));
        assert(entries_total(s.take(k)) <= entries_total(s.take(k + 1)));
    }
}

impl CountTable {
    /// Keys are distinct, counts are positive, and `total` is their sum.
    pub open spec fn wf(self) -> bool {
        &&& distinct_keys(self.entries@)
        &&& forall|i: int| 0 <= i < self.entries@.len() ==> #[trigger] self.entries@[i].1 >= 1
        &&& self.total == entries_total(self.entries@)
    }

    /// An empty table.
    pub fn new() -> (r: CountTable)
        ensures
            r.wf(),
            r@ == Map::<Seq<char>, nat>::empty(),
            r.total == 0,
    {
        CountTable { entries: Vec::new(), total: 0 }
    }

    /// Index of the entry holding `t`, if any.
    fn find_entry(&self, t: &String) -> (r: Option<usize>)
        ensures
            match r {
                Some(k) => k < self.entries@.len() && self.entries@[k as int].0@ == t@,
                None => forall|i: int|
                    0 <= i < self.entries@.len() ==> #[trigger] self.entries@[i].0@ != t@,
            },
    {
        let n = self.entries.len();
        for i in 0..n
            invariant
                n == self.entries@.len(),
                forall|j: int| 0 <= j < i ==> #[trigger] self.entries@[j].0@ != t@,
        {
            if self.entries[i].0 == *t {
                return Some(i);
            }
        }
        None
    }

    /// Whether `t` occurs in the table.
    pub fn contains(&self, t: &String) -> (r: bool)
        ensures
            r == self@.dom().contains(t@),
    {
        match self.find_entry(t) {
            Some(k) => {
                proof {
                    lemma_table_map_contains(self.entries@, k as int);
                }
                true
            },
            None => {
                proof {
                    lemma_table_map_absent(self.entries@, t@);
                }
                false
            },
        }
    }

    /// Records `c` further occurrences of `t`.
    fn add_count(&mut self, t: &String, c: u64)
        requires
            old(self).wf(),
            c >= 1,
            old(self).total + c <= u64::MAX,
        ensures
            final(self).wf(),
            final(self)@ == with_more(old(self)@, t@, c as nat),
            final(self).total == old(self).total + c,
    {
        match self.find_entry(t) {
            Some(k) => {
                proof {
                    lemma_table_map_index(self.entries@, k as int);
                    lemma_entry_le_total(self.entries@, k as int);
                }
                let key = self.entries[k].0.clone();
                let n = self.entries[k].1;
                proof {
                    lemma_table_map_update(self.entries@, k as int, (key, (n + c) as u64));
                    lemma_entries_total_update(self.entries@, k as int, (key, (n + c) as u64));
                }
                self.entries.set(k, (key, n + c));
                self.total = self.total + c;
            },
            None => {
                proof {
                    lemma_table_map_absent(self.entries@, t@);
                }
                self.entries.push((t.clone(), c));
                self.total = self.total + c;
                proof {
                    assert(self.entries@.drop_last() =~= old(self).entries@);
                }
            },
        }
    }

    /// Records one further occurrence of `t`.
    pub fn bump(&mut self, t: &String)
        requires
            old(self).wf(),
            old(self).total < u64::MAX,
        ensures
            final(self).wf(),
            final(self)@ == with_one(old(self)@, t@),
            final(self).total == old(self).total + 1,
    {
        self.add_count(t, 1);
        proof {
            assert(with_more(old(self)@, t@, 1nat) =~= with_one(old(self)@, t@));
        }
    }

    /// Adds every count of `other` into this table.
    pub fn merge(&mut self, other: &CountTable)
        requires
            old(self).wf(),
            other.wf(),
            old(self).total + other.total <= u64::MAX,
        ensures
            final(self).wf(),
            final(self)@ == add_counts(old(self)@, other@),
            final(self).total == old(self).total + other.total,
    {
        let n = other.entries.len();
        proof {
            assert(other.entries@.take(0) =~= Seq::<(String, u64)>::empty());
            assert(add_counts(old(self)@, table_map(other.entries@.take(0))) =~= old(self)@);
        }
        for k in 0..n
            invariant
                n == other.entries@.len(),
                other.wf(),
                self.wf(),
                self@ == add_counts(old(self)@, table_map(other.entries@.take(k as int))),
                self.total == old(self).total + entries_total(other.entries@.take(k as int)),
                old(self).total + other.total <= u64::MAX,
        {
            let t = other.entries[k].0.clone();
            let c = other.entries[k].1;
            proof {
                let pre = other.entries@.take(k as int);
                let post = other.entries@.take(k as int + 1);
                assert(pre.push(other.entries@[k as int]) =~= post);
                assert(post.drop_last() =~= pre);
                assert(post.last() == other.entries@[k as int]);
                assert(entries_total(post) == entries_total(pre) + c as nat);
                assert(table_map(post) == table_map(pre).insert(t@, c as nat));
                lemma_entries_total_take(other.entries@, k as int + 1);
                assert(forall|i: int|
                    0 <= i < pre.len() ==> #[trigger] pre[i].0@ == other.entries@[i].0@);
                lemma_table_map_absent(pre, t@);
                assert(with_more(add_counts(old(self)@, table_map(pre)), t@, c as nat)
                    =~= add_counts(old(self)@, table_map(pre).insert(t@, c as nat)));
            }
            self.add_count(&t, c);
        }
        proof {
            assert(other.entries@.take(n as int) =~= other.entries@);
        }
    }

    /// Counts every token of the sequence into a fresh table.
    pub fn from_tokens(tokens: &Vec<String>) -> (r: CountTable)
        ensures
            r.wf(),
            r@ == counts_of(tokens.deep_view()),
            r.total == tokens@.len(),
    {
        let mut table = CountTable::new();
        let n = tokens.len();
        proof {
            assert(tokens.deep_view().take(0) =~= Seq::<Seq<char>>::empty());
            assert(counts_of(tokens.deep_view().take(0)) =~= Map::<Seq<char>, nat>::empty());
        }
        for i in 0..n
            invariant
                n == tokens@.len(),
                tokens.deep_view().len() == n,
                forall|j: int| 0 <= j < n ==> #[trigger] tokens.deep_view()[j] == tokens@[j]@,
                table.wf(),
                table@ == counts_of(tokens.deep_view().take(i as int)),
                table.total == i,
        {
            proof {
                let pre = tokens.deep_view().take(i as int);
                lemma_counts_of_push(pre, tokens.deep_view()[i as int]);
                assert(pre.push(tokens.deep_view()[i as int]) =~= tokens.deep_view().take(
                    i as int + 1,
                ));
            }
            table.bump(&tokens[i]);
        }
        proof {
            assert(tokens.deep_view().take(n as int) =~= tokens.deep_view());
        }
        table
    }

    /// The table's entries sorted by descending count; equal counts are
    /// ordered by ascending byte order of the token, a fixed tie-break
    /// that keeps the vocabulary reproducible.
    pub fn into_sorted(self) -> (r: Vec<(String, u64)>)
        ensures
            r@.to_multiset() == self.entries@.to_multiset(),
            sorted_entries(r@),
    {
        broadcast use vstd::seq_lib::group_to_multiset_ensures;

        let entries = self.entries;
        let n = entries.len();
        let mut out: Vec<(String, u64)> = Vec::new();
        proof {
            assert(entries@.take(0) =~= out@);
        }
        for k in 0..n
            invariant
                n == entries@.len(),
                sorted_entries(out@),
                out@.to_multiset() == entries@.take(k as int).to_multiset(),
        {
            let e = (entries[k].0.clone(), entries[k].1);
            let p = find_pos(&out, &e);
            proof {
                let prev = out@;
                assert(e == entries@[k as int]);
                lemma_insert_to_multiset(prev, p as int, e);
                assert(entries@.take(k as int).push(e) =~= entries@.take(k as int + 1));
                vstd::seq_lib::to_multiset_build(entries@.take(k as int), e);
                prev.insert_ensures(p as int, e);
                assert forall|i: int, j: int|
                    0 <= i < j < prev.insert(p as int, e).len() implies count_order(
                    prev.insert(p as int, e)[i],
                    prev.insert(p as int, e)[j],
                ) by {
                    let s2 = prev.insert(p as int, e);
                    if j < p {
                        assert(s2[i] == prev[i] && s2[j] == prev[j]);
                    } else if i > p {
                        assert(s2[i] == prev[i - 1] && s2[j] == prev[j - 1]);
                    } else if i == p {
                        assert(s2[i] == e && s2[j] == prev[j - 1]);
                    } else if j == p {
                        assert(s2[i] == prev[i] && s2[j] == e);
                    } else {
                        assert(s2[i] == prev[i] && s2[j] == prev[j - 1]);
                    }
                }
            }
            out.insert(p, e);
        }
        proof {
            assert(entries@.take(n as int) =~= entries@);
        }
        out
    }
}

} // verus!
