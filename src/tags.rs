use vstd::prelude::*;
use crate::model::{count_in, tag_count, total_tags, SidecarEntry};
use crate::text::{
    lemma_seq_lt_irreflexive, lemma_seq_lt_total, lemma_seq_lt_transitive, seq_lt, str_lt,
    image_name_of,
};

verus! {

/// A tag and how often it occurs.
pub struct TagWithCount {
    pub tag: String,
    pub count: usize,
}

/// Each tag is strictly below the next one.
pub open spec fn names_sorted(v: Seq<String>) -> bool {
    forall|i: int, j: int| 0 <= i < j < v.len() ==> seq_lt((#[trigger] v[i])@, (#[trigger] v[j])@)
}

/// `t` is one of the names of `v`.
pub open spec fn has_name(v: Seq<String>, t: Seq<char>) -> bool {
    exists|i: int| 0 <= i < v.len() && (#[trigger] v[i])@ == t
}

/// The tag of each entry is strictly below that of the next one.
pub open spec fn by_tag_sorted(v: Seq<TagWithCount>) -> bool {
    forall|i: int, j: int|
        0 <= i < j < v.len() ==> seq_lt((#[trigger] v[i]).tag@, (#[trigger] v[j]).tag@)
}

/// `v` lists the tag `t`.
pub open spec fn lists_tag(v: Seq<TagWithCount>, t: Seq<char>) -> bool {
    exists|i: int| 0 <= i < v.len() && (#[trigger] v[i]).tag@ == t
}

/// The count that `v` gives for `t`, 0 where it lists no `t`.
pub open spec fn table_count(v: Seq<TagWithCount>, t: Seq<char>) -> nat
    decreases v.len(),
{
    if v.len() == 0 {
        0
    } else if v.last().tag@ == t {
        v.last().count as nat
    } else {
        table_count(v.drop_last(), t)
    }
}

/// The sum of the counts of `v`.
pub open spec fn sum_counts(v: Seq<TagWithCount>) -> nat
    decreases v.len(),
{
    if v.len() == 0 {
        0
    } else {
        sum_counts(v.drop_last()) + v.last().count as nat
    }
}

/// `a` comes before `b` when ranking: higher count first, then the lower tag.
pub open spec fn ranks_before(a: TagWithCount, b: TagWithCount) -> bool {
    a.count > b.count || (a.count == b.count && seq_lt(a.tag@, b.tag@))
}

/// Each entry ranks before the next one.
pub open spec fn ranked(v: Seq<TagWithCount>) -> bool {
    forall|i: int, j: int| 0 <= i < j < v.len() ==> ranks_before(#[trigger] v[i], #[trigger] v[j])
}

proof fn lemma_ranks_before_transitive(a: TagWithCount, b: TagWithCount, c: TagWithCount)
    requires
        ranks_before(a, b),
        ranks_before(b, c),
    ensures
        ranks_before(a, c),
{
    if a.count == b.count && b.count == c.count {
        lemma_seq_lt_transitive(a.tag@, b.tag@, c.tag@);
    }
}

proof fn lemma_table_count_at(v: Seq<TagWithCount>, n: int)
    requires
        by_tag_sorted(v),
        0 <= n < v.len(),
    ensures
        table_count(v, v[n].tag@) == v[n].count,
    decreases v.len(),
{
    if n < v.len() - 1 {
        assert(seq_lt(v[n].tag@, v[v.len() - 1].tag@));
        lemma_seq_lt_irreflexive(v[n].tag@);
        assert(v.drop_last()[n] == v[n]);
        lemma_table_count_at(v.drop_last(), n);
    }
}

proof fn lemma_table_count_absent(v: Seq<TagWithCount>, t: Seq<char>)
    requires
        !lists_tag(v, t),
    ensures
        table_count(v, t) == 0,
    decreases v.len(),
{
    if v.len() > 0 {
        assert(v[v.len() - 1].tag@ != t);
        assert forall|i: int| 0 <= i < v.drop_last().len() implies (#[trigger] v.drop_last()[i]).tag@ != t by {
            assert(v[i].tag@ != t);
        }
        lemma_table_count_absent(v.drop_last(), t);
    }
}

proof fn lemma_sum_update(v: Seq<TagWithCount>, i: int, x: TagWithCount)
    requires
        0 <= i < v.len(),
    ensures
        sum_counts(v.update(i, x)) + v[i].count == sum_counts(v) + x.count,
        v[i].count <= sum_counts(v),
    decreases v.len(),
{
    if i < v.len() - 1 {
        lemma_sum_update(v.drop_last(), i, x);
        assert(v.update(i, x).drop_last() =~= v.drop_last().update(i, x));
    } else {
        assert(v.update(i, x).drop_last() =~= v.drop_last());
    }
}

proof fn lemma_sum_insert(v: Seq<TagWithCount>, i: int, x: TagWithCount)
    requires
        0 <= i <= v.len(),
    ensures
        sum_counts(v.insert(i, x)) == sum_counts(v) + x.count,
    decreases v.len(),
{
    if i < v.len() {
        lemma_sum_insert(v.drop_last(), i, x);
        assert(v.insert(i, x).drop_last() =~= v.drop_last().insert(i, x));
    } else {
        assert(v.insert(i, x).drop_last() =~= v);
    }
}

/// Adds one occurrence of `t` to a table ordered by tag.
fn bump_tag(table: &mut Vec<TagWithCount>, t: &String)
    requires
        by_tag_sorted(old(table)@),
        forall|i: int| 0 <= i < old(table)@.len() ==> (#[trigger] old(table)@[i]).count > 0,
        sum_counts(old(table)@) < usize::MAX,
    ensures
        by_tag_sorted(final(table)@),
        forall|i: int| 0 <= i < final(table)@.len() ==> (#[trigger] final(table)@[i]).count > 0,
        sum_counts(final(table)@) == sum_counts(old(table)@) + 1,
        forall|k: Seq<char>|
            #[trigger] table_count(final(table)@, k) == table_count(old(table)@, k) + if k == t@ {
                1nat
            } else {
                0nat
            },
{
    let ghost v0 = table@;
    let mut p: usize = 0;
    while p < table.len() && str_lt(&table[p].tag, t)
        invariant
            table@ == v0,
            p <= v0.len(),
            forall|a: int| 0 <= a < p ==> seq_lt((#[trigger] v0[a]).tag@, t@),
        decreases v0.len() - p,
    {
        p = p + 1;
    }
    if p < table.len() && table[p].tag == *t {
        proof {
            lemma_sum_update(v0, p as int, TagWithCount { tag: v0[p as int].tag, count: (v0[p as int].count + 1) as usize });
        }
        let c = table[p].count;
        table[p].count = c + 1;
        let ghost x = table@[p as int];
        assert(table@ == v0.update(p as int, x));
        assert(by_tag_sorted(table@));
        assert forall|k: Seq<char>|
            #[trigger] table_count(table@, k) == table_count(v0, k) + if k == t@ {
                1nat
            } else {
                0nat
            } by {
            if k == t@ {
                lemma_table_count_at(table@, p as int);
                lemma_table_count_at(v0, p as int);
            } else if exists|j: int| 0 <= j < table@.len() && (#[trigger] table@[j]).tag@ == k {
                let j = choose|j: int| 0 <= j < table@.len() && (#[trigger] table@[j]).tag@ == k;
                lemma_table_count_at(table@, j);
                lemma_table_count_at(v0, j);
            } else {
                assert(!exists|j: int| 0 <= j < v0.len() && (#[trigger] v0[j]).tag@ == k) by {
                    if exists|j: int| 0 <= j < v0.len() && (#[trigger] v0[j]).tag@ == k {
                        let j = choose|j: int| 0 <= j < v0.len() && (#[trigger] v0[j]).tag@ == k;
                        assert(table@[j].tag@ == k);
                    }
                }
                lemma_table_count_absent(v0, k);
                lemma_table_count_absent(table@, k);
            }
        }
    } else {
        let x = TagWithCount { tag: t.clone(), count: 1 };
        proof {
            lemma_sum_insert(v0, p as int, x);
            if p < v0.len() {
                lemma_seq_lt_total(v0[p as int].tag@, t@);
            }
        }
        table.insert(p, x);
        assert(table@ == v0.insert(p as int, x));
        assert forall|i: int, j: int|
            0 <= i < j < table@.len() implies seq_lt((#[trigger] table@[i]).tag@, (#[trigger] table@[j]).tag@) by {
            if j == p && i < p {
            } else if i == p && j > p {
                if j - 1 > p {
                    lemma_seq_lt_transitive(t@, v0[p as int].tag@, v0[j - 1].tag@);
                }
            } else if i < p && j > p {
            }
        }
        assert forall|k: Seq<char>|
            #[trigger] table_count(table@, k) == table_count(v0, k) + if k == t@ {
                1nat
            } else {
                0nat
            } by {
            if k == t@ {
                lemma_table_count_at(table@, p as int);
                assert(!exists|j: int| 0 <= j < v0.len() && (#[trigger] v0[j]).tag@ == k) by {
                    if exists|j: int| 0 <= j < v0.len() && (#[trigger] v0[j]).tag@ == k {
                        let j = choose|j: int| 0 <= j < v0.len() && (#[trigger] v0[j]).tag@ == k;
                        if j < p {
                            lemma_seq_lt_irreflexive(k);
                        } else if j > p {
                            lemma_seq_lt_transitive(t@, v0[p as int].tag@, v0[j].tag@);
                            lemma_seq_lt_irreflexive(k);
                        }
                    }
                }
                lemma_table_count_absent(v0, k);
            } else if exists|j: int| 0 <= j < table@.len() && (#[trigger] table@[j]).tag@ == k {
                let j = choose|j: int| 0 <= j < table@.len() && (#[trigger] table@[j]).tag@ == k;
                lemma_table_count_at(table@, j);
                if j < p {
                    lemma_table_count_at(v0, j);
                } else {
                    lemma_table_count_at(v0, j - 1);
                }
            } else {
                assert(!exists|j: int| 0 <= j < v0.len() && (#[trigger] v0[j]).tag@ == k) by {
                    if exists|j: int| 0 <= j < v0.len() && (#[trigger] v0[j]).tag@ == k {
                        let j = choose|j: int| 0 <= j < v0.len() && (#[trigger] v0[j]).tag@ == k;
                        if j < p {
                            assert(table@[j].tag@ == k);
                        } else {
                            assert(table@[j + 1].tag@ == k);
                        }
                    }
                }
                lemma_table_count_absent(v0, k);
                lemma_table_count_absent(table@, k);
            }
        }
    }
}

} // verus!

verus! {

proof fn lemma_total_tags_monotone(es: Seq<SidecarEntry>, i: int, m: int)
    requires
        0 <= i <= m <= es.len(),
    ensures
        total_tags(es.take(i)) <= total_tags(es.take(m)),
    decreases m - i,
{
    if i < m {
        assert(es.take(m).drop_last() =~= es.take(m - 1));
        lemma_total_tags_monotone(es, i, m - 1);
    }
}

/// The tags of the indexed entries with their number of occurrences,
/// ordered by tag.
pub fn tags_by_name(entries: &Vec<SidecarEntry>) -> (r: Vec<TagWithCount>)
    requires
        total_tags(entries@) < usize::MAX,
    ensures
        by_tag_sorted(r@),
        forall|i: int| 0 <= i < r@.len() ==> (#[trigger] r@[i]).count > 0,
        forall|k: Seq<char>| #[trigger] table_count(r@, k) == tag_count(entries@, k),
        sum_counts(r@) == total_tags(entries@),
{
    let mut table: Vec<TagWithCount> = Vec::new();
    let mut i: usize = 0;
    assert(entries@.take(0) =~= Seq::<SidecarEntry>::empty());
    while i < entries.len()
        invariant
            i <= entries@.len(),
            total_tags(entries@) < usize::MAX,
            by_tag_sorted(table@),
            forall|a: int| 0 <= a < table@.len() ==> (#[trigger] table@[a]).count > 0,
            forall|k: Seq<char>| #[trigger] table_count(table@, k) == tag_count(entries@.take(i as int), k),
            sum_counts(table@) == total_tags(entries@.take(i as int)),
        decreases entries@.len() - i,
    {
        let ghost es0 = entries@.take(i as int);
        let ghost es1 = entries@.take(i + 1);
        assert(es1.drop_last() =~= es0);
        let e = &entries[i];
        assert(es1.last() == *e);
        proof {
            lemma_total_tags_monotone(entries@, i + 1, entries@.len() as int);
            assert(entries@.take(entries@.len() as int) =~= entries@);
        }
        if let Some(_stem) = image_name_of(e.file_name.as_str()) {
            if let Some(m) = &e.record {
                let ghost tv = m.tags_view();
                let ghost before = table@;
                assert(tv.take(0) =~= Seq::<Seq<char>>::empty());
                let mut j: usize = 0;
                while j < m.tags.len()
                    invariant
                        j <= m.tags@.len(),
                        tv == m.tags_view(),
                        total_tags(es1) < usize::MAX,
                        total_tags(es1) == total_tags(es0) + m.tags@.len(),
                        by_tag_sorted(table@),
                        forall|a: int| 0 <= a < table@.len() ==> (#[trigger] table@[a]).count > 0,
                        forall|k: Seq<char>|
                            #[trigger] table_count(table@, k) == table_count(before, k) + count_in(
                                tv.take(j as int),
                                k,
                            ),
                        sum_counts(table@) == sum_counts(before) + j,
                        sum_counts(before) == total_tags(es0),
                    decreases m.tags@.len() - j,
                {
                    bump_tag(&mut table, &m.tags[j]);
                    assert forall|k: Seq<char>|
                        #[trigger] table_count(table@, k) == table_count(before, k) + count_in(
                            tv.take(j + 1),
                            k,
                        ) by {
                        assert(tv.take(j + 1).drop_last() =~= tv.take(j as int));
                    }
                    j = j + 1;
                }
                assert(tv.take(j as int) =~= tv);
                assert forall|k: Seq<char>| #[trigger] table_count(table@, k) == tag_count(es1, k) by {}
            }
        }
        i = i + 1;
    }
    assert(entries@.take(i as int) =~= entries@);
    table
}

/// Orders a table by count, highest first, and equal counts by tag.
fn rank_tags(table: Vec<TagWithCount>) -> (r: Vec<TagWithCount>)
    requires
        by_tag_sorted(table@),
    ensures
        ranked(r@),
        forall|a: int| 0 <= a < r@.len() ==> (#[trigger] r@[a]).count == table_count(table@, r@[a].tag@),
        forall|a: int| 0 <= a < r@.len() ==> lists_tag(table@, (#[trigger] r@[a]).tag@),
        forall|k: Seq<char>| lists_tag(table@, k) ==> #[trigger] lists_tag(r@, k),
        sum_counts(r@) == sum_counts(table@),
{
    let mut r: Vec<TagWithCount> = Vec::new();
    let mut table = table;
    let ghost t0 = table@;
    let n = table.len();
    let mut i: usize = 0;
    assert(t0.take(0) =~= Seq::<TagWithCount>::empty());
    while i < n
        invariant
            n == t0.len(),
            table@.len() == n - i,
            forall|b: int| 0 <= b < table@.len() ==> (#[trigger] table@[b]) == t0[b + i],
            by_tag_sorted(t0),
            ranked(r@),
            forall|a: int| 0 <= a < r@.len() ==> exists|b: int| 0 <= b < i && (#[trigger] r@[a]) == #[trigger] t0[b],
            forall|b: int| 0 <= b < i ==> lists_tag(r@, (#[trigger] t0[b]).tag@),
            sum_counts(r@) == sum_counts(t0.take(i as int)),
        decreases n - i,
    {
        let x = table.remove(0);
        assert(x == t0[i as int]);
        let mut p: usize = 0;
        while p < r.len() && (r[p].count > x.count || (r[p].count == x.count && str_lt(&r[p].tag, &x.tag)))
            invariant
                p <= r@.len(),
                forall|a: int| 0 <= a < p ==> ranks_before(#[trigger] r@[a], x),
            decreases r@.len() - p,
        {
            p = p + 1;
        }
        let ghost r0 = r@;
        proof {
            lemma_sum_insert(r0, p as int, x);
            assert(t0.take(i + 1).drop_last() =~= t0.take(i as int));
            if p < r0.len() {
                let b = choose|b: int| 0 <= b < i && r0[p as int] == t0[b];
                assert(seq_lt(t0[b].tag@, t0[i as int].tag@));
                lemma_seq_lt_irreflexive(x.tag@);
                lemma_seq_lt_total(r0[p as int].tag@, x.tag@);
                assert(ranks_before(x, r0[p as int]));
            }
        }
        r.insert(p, x);
        assert(r@ == r0.insert(p as int, x));
        assert forall|a: int, c: int| 0 <= a < c < r@.len() implies ranks_before(#[trigger] r@[a], #[trigger] r@[c]) by {
            if a < p && c == p {
            } else if a == p && c > p {
                if c - 1 > p {
                    lemma_ranks_before_transitive(x, r0[p as int], r0[c - 1]);
                }
            } else if a < p && c > p {
            }
        }
        assert forall|a: int| 0 <= a < r@.len() implies exists|b: int| 0 <= b < i + 1 && (#[trigger] r@[a]) == #[trigger] t0[b] by {
            if a < p {
                assert(r@[a] == r0[a]);
            } else if a == p {
                assert(r@[a] == t0[i as int]);
            } else {
                assert(r@[a] == r0[a - 1]);
            }
        }
        assert forall|b: int| 0 <= b < i + 1 implies lists_tag(r@, (#[trigger] t0[b]).tag@) by {
            if b == i {
                assert(r@[p as int] == x);
            } else {
                let a = choose|a: int| 0 <= a < r0.len() && (#[trigger] r0[a]).tag@ == t0[b].tag@;
                if a < p {
                    assert(r@[a] == r0[a]);
                } else {
                    assert(r@[a + 1] == r0[a]);
                }
            }
        }
        i = i + 1;
    }
    assert(t0.take(i as int) =~= t0);
    assert forall|a: int| 0 <= a < r@.len() implies (#[trigger] r@[a]).count == table_count(t0, r@[a].tag@) && lists_tag(t0, r@[a].tag@) by {
        let b = choose|b: int| 0 <= b < i && r@[a] == t0[b];
        lemma_table_count_at(t0, b);
    }
    assert forall|k: Seq<char>| lists_tag(t0, k) implies #[trigger] lists_tag(r@, k) by {
        let b = choose|b: int| 0 <= b < t0.len() && (#[trigger] t0[b]).tag@ == k;
    }
    r
}

} // verus!

verus! {

/// Every tag of the indexed entries once, with its number of occurrences,
/// ranked by count, highest first, and equal counts by tag, ascending.
pub fn tags_with_count(entries: &Vec<SidecarEntry>) -> (r: Vec<TagWithCount>)
    requires
        total_tags(entries@) < usize::MAX,
    ensures
        ranked(r@),
        forall|a: int|
            0 <= a < r@.len() ==> (#[trigger] r@[a]).count == tag_count(entries@, r@[a].tag@)
                && r@[a].count > 0,
        forall|k: Seq<char>| tag_count(entries@, k) > 0 ==> #[trigger] lists_tag(r@, k),
        forall|a: int, c: int| 0 <= a < c < r@.len() ==> (#[trigger] r@[a]).tag@ != (#[trigger] r@[c]).tag@,
        sum_counts(r@) == total_tags(entries@),
        entries@.len() == 0 ==> r@.len() == 0,
{
    let table = tags_by_name(entries);
    let ghost t0 = table@;
    let r = rank_tags(table);
    assert forall|a: int|
        0 <= a < r@.len() implies (#[trigger] r@[a]).count == tag_count(entries@, r@[a].tag@)
            && r@[a].count > 0 by {
        let b = choose|b: int| 0 <= b < t0.len() && (#[trigger] t0[b]).tag@ == r@[a].tag@;
        lemma_table_count_at(t0, b);
    }
    assert forall|k: Seq<char>| tag_count(entries@, k) > 0 implies #[trigger] lists_tag(r@, k) by {
        if !lists_tag(t0, k) {
            lemma_table_count_absent(t0, k);
        }
    }
    assert forall|a: int, c: int| 0 <= a < c < r@.len() implies (#[trigger] r@[a]).tag@ != (#[trigger] r@[c]).tag@ by {
        if r@[a].tag@ == r@[c].tag@ {
            lemma_seq_lt_irreflexive(r@[a].tag@);
        }
    }
    if entries.len() == 0 && r.len() > 0 {
        assert(r@[0].count > 0);
    }
    r
}

/// Adds `t` to a strictly ascending list of names, unless it is there.
fn insert_name(v: &mut Vec<String>, t: &String)
    requires
        names_sorted(old(v)@),
    ensures
        names_sorted(final(v)@),
        forall|k: Seq<char>| #[trigger] has_name(final(v)@, k) == (has_name(old(v)@, k) || k == t@),
{
    let ghost v0 = v@;
    let mut p: usize = 0;
    while p < v.len() && str_lt(&v[p], t)
        invariant
            v@ == v0,
            p <= v0.len(),
            forall|a: int| 0 <= a < p ==> seq_lt((#[trigger] v0[a])@, t@),
        decreases v0.len() - p,
    {
        p = p + 1;
    }
    if p < v.len() && v[p] == *t {
        assert forall|k: Seq<char>| #[trigger] has_name(v@, k) == (has_name(v0, k) || k == t@) by {
            if k == t@ {
                assert(v0[p as int]@ == k);
            }
        }
        return;
    }
    proof {
        if p < v0.len() {
            lemma_seq_lt_total(v0[p as int]@, t@);
        }
    }
    v.insert(p, t.clone());
    assert(v@ == v0.insert(p as int, *t));
    assert forall|i: int, j: int|
        0 <= i < j < v@.len() implies seq_lt((#[trigger] v@[i])@, (#[trigger] v@[j])@) by {
        if i == p && j > p {
            if j - 1 > p {
                lemma_seq_lt_transitive(t@, v0[p as int]@, v0[j - 1]@);
            }
        }
    }
    assert forall|k: Seq<char>| #[trigger] has_name(v@, k) == (has_name(v0, k) || k == t@) by {
        if k == t@ {
            assert(v@[p as int]@ == k);
        }
        if has_name(v0, k) {
            let a = choose|a: int| 0 <= a < v0.len() && (#[trigger] v0[a])@ == k;
            if a < p {
                assert(v@[a] == v0[a]);
            } else {
                assert(v@[a + 1] == v0[a]);
            }
        }
        if has_name(v@, k) {
            let a = choose|a: int| 0 <= a < v@.len() && (#[trigger] v@[a])@ == k;
            if a < p {
                assert(v@[a] == v0[a]);
            } else if a > p {
                assert(v@[a] == v0[a - 1]);
            }
        }
    }
}

/// Every tag of the indexed entries once, in ascending order.
pub fn all_tags(entries: &Vec<SidecarEntry>) -> (r: Vec<String>)
    ensures
        names_sorted(r@),
        forall|k: Seq<char>| #[trigger] has_name(r@, k) == (tag_count(entries@, k) > 0),
        entries@.len() == 0 ==> r@.len() == 0,
{
    let mut v: Vec<String> = Vec::new();
    let mut i: usize = 0;
    assert(entries@.take(0) =~= Seq::<SidecarEntry>::empty());
    while i < entries.len()
        invariant
            i <= entries@.len(),
            names_sorted(v@),
            forall|k: Seq<char>| #[trigger] has_name(v@, k) == (tag_count(entries@.take(i as int), k) > 0),
        decreases entries@.len() - i,
    {
        let ghost es0 = entries@.take(i as int);
        let ghost es1 = entries@.take(i + 1);
        assert(es1.drop_last() =~= es0);
        let e = &entries[i];
        assert(es1.last() == *e);
        if let Some(_stem) = image_name_of(e.file_name.as_str()) {
            if let Some(m) = &e.record {
                let ghost tv = m.tags_view();
                assert(tv.take(0) =~= Seq::<Seq<char>>::empty());
                let mut j: usize = 0;
                while j < m.tags.len()
                    invariant
                        j <= m.tags@.len(),
                        tv == m.tags_view(),
                        names_sorted(v@),
                        forall|k: Seq<char>|
                            #[trigger] has_name(v@, k) == (tag_count(es0, k) + count_in(tv.take(j as int), k) > 0),
                    decreases m.tags@.len() - j,
                {
                    insert_name(&mut v, &m.tags[j]);
                    assert forall|k: Seq<char>|
                        #[trigger] has_name(v@, k) == (tag_count(es0, k) + count_in(tv.take(j + 1), k) > 0) by {
                        assert(tv.take(j + 1).drop_last() =~= tv.take(j as int));
                    }
                    j = j + 1;
                }
                assert(tv.take(j as int) =~= tv);
                assert forall|k: Seq<char>| #[trigger] has_name(v@, k) == (tag_count(es1, k) > 0) by {}
            }
        }
        i = i + 1;
    }
    assert(entries@.take(i as int) =~= entries@);
    if entries.len() == 0 && v.len() > 0 {
        assert(has_name(v@, v@[0]@));
    }
    v
}

} // verus!

verus! {

/// The number of tag occurrences over the indexed entries, where it is
/// below `usize::MAX`.
pub fn count_tag_occurrences(entries: &Vec<SidecarEntry>) -> (r: Option<usize>)
    ensures
        r matches Some(n) ==> n == total_tags(entries@) && n < usize::MAX,
        r is None ==> total_tags(entries@) >= usize::MAX,
{
    let mut total: usize = 0;
    let mut i: usize = 0;
    assert(entries@.take(0) =~= Seq::<SidecarEntry>::empty());
    while i < entries.len()
        invariant
            i <= entries@.len(),
            total == total_tags(entries@.take(i as int)),
            total < usize::MAX,
        decreases entries@.len() - i,
    {
        let ghost es1 = entries@.take(i + 1);
        assert(es1.drop_last() =~= entries@.take(i as int));
        let e = &entries[i];
        assert(es1.last() == *e);
        if let Some(_stem) = image_name_of(e.file_name.as_str()) {
            if let Some(m) = &e.record {
                let n = m.tags.len();
                if n >= usize::MAX - total {
                    proof {
                        lemma_total_tags_monotone(entries@, i + 1, entries@.len() as int);
                        assert(entries@.take(entries@.len() as int) =~= entries@);
                    }
                    return None;
                }
                total = total + n;
            }
        }
        i = i + 1;
    }
    assert(entries@.take(i as int) =~= entries@);
    Some(total)
}

} // verus!
