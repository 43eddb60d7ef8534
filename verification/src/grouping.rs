//! Grouping the keyed entries of consecutive steps by key: for each key, in order of
//! first appearance, where it occurs (step index, entry index), step by step. The
//! protocol sends steps per participant; this is how they are gathered.
use vstd::prelude::*;

verus! {

/// Each entry of one row, as (row index, entry index, key).
pub open spec fn flat_row(i: int, row: Seq<u8>) -> Seq<(int, int, u8)> {
    Seq::new(row.len(), |j: int| (i, j, row[j]))
}

/// All entries of all rows, row by row, as (row index, entry index, key).
pub open spec fn flat_keys(rows: Seq<Seq<u8>>) -> Seq<(int, int, u8)>
    decreases rows.len(),
{
    if rows.len() == 0 {
        Seq::empty()
    } else {
        flat_keys(rows.drop_last()) + flat_row(rows.len() - 1, rows.last())
    }
}

/// The distinct keys of the entries, in order of first appearance.
pub open spec fn first_keys(f: Seq<(int, int, u8)>) -> Seq<u8>
    decreases f.len(),
{
    if f.len() == 0 {
        Seq::empty()
    } else {
        let ks = first_keys(f.drop_last());
        if ks.contains(f.last().2) {
            ks
        } else {
            ks.push(f.last().2)
        }
    }
}

/// Where key `k` occurs among the entries, in order.
pub open spec fn positions_of(f: Seq<(int, int, u8)>, k: u8) -> Seq<(int, int)>
    decreases f.len(),
{
    if f.len() == 0 {
        Seq::empty()
    } else {
        let p = positions_of(f.drop_last(), k);
        if f.last().2 == k {
            p.push((f.last().0, f.last().1))
        } else {
            p
        }
    }
}

/// Index pairs taken as integers.
pub open spec fn int_pairs(v: Seq<(usize, usize)>) -> Seq<(int, int)> {
    v.map_values(|p: (usize, usize)| (p.0 as int, p.1 as int))
}

/// The keys of each row.
pub open spec fn row_views(rows: Seq<Vec<u8>>) -> Seq<Seq<u8>> {
    rows.map_values(|r: Vec<u8>| r@)
}

/// A key and where it occurs.
#[derive(Debug)]
pub struct KeyGroup {
    pub key: u8,
    pub positions: Vec<(usize, usize)>,
}

/// The groups are those of the entries `f`: one per distinct key, in order of first
/// appearance, each with the positions of its key.
pub open spec fn groups_of(groups: Seq<KeyGroup>, f: Seq<(int, int, u8)>) -> bool {
    &&& groups.len() == first_keys(f).len()
    &&& forall|g: int|
        0 <= g < groups.len() ==> (#[trigger] groups[g]).key == first_keys(f)[g] && int_pairs(
            groups[g].positions@,
        ) == positions_of(f, groups[g].key)
}

/// The distinct keys hold no key twice.
pub proof fn lemma_first_keys_distinct(f: Seq<(int, int, u8)>)
    ensures
        first_keys(f).no_duplicates(),
    decreases f.len(),
{
    if f.len() > 0 {
        lemma_first_keys_distinct(f.drop_last());
    }
}

/// A key is among the distinct keys exactly when some entry has it.
pub proof fn lemma_first_keys_contains(f: Seq<(int, int, u8)>, k: u8)
    ensures
        first_keys(f).contains(k) <==> exists|e: int| 0 <= e < f.len() && (#[trigger] f[e]).2 == k,
    decreases f.len(),
{
    if f.len() > 0 {
        let g = f.drop_last();
        let x = f.last().2;
        let ks = first_keys(g);
        lemma_first_keys_contains(g, k);
        if !ks.contains(x) {
            assert(first_keys(f) == ks.push(x));
            if ks.contains(k) {
                let h = choose|h: int| 0 <= h < ks.len() && ks[h] == k;
                assert(ks.push(x)[h] == k);
            }
            if x == k {
                assert(ks.push(x)[ks.len() as int] == k);
            }
            if ks.push(x).contains(k) {
                let h = choose|h: int| 0 <= h < ks.len() + 1 && ks.push(x)[h] == k;
                if h < ks.len() {
                    assert(ks[h] == k);
                }
            }
        }
        if ks.contains(k) {
            let e = choose|e: int| 0 <= e < g.len() && (#[trigger] g[e]).2 == k;
            assert(f[e] == g[e]);
        }
        if x == k {
            assert(f[f.len() - 1].2 == k);
        }
        if exists|e: int| 0 <= e < f.len() && (#[trigger] f[e]).2 == k {
            let e = choose|e: int| 0 <= e < f.len() && (#[trigger] f[e]).2 == k;
            if e < g.len() {
                assert(g[e] == f[e]);
            } else {
                assert(x == k);
            }
        }
    }
}

/// Groups the entries of the rows by key.
pub fn group_keys(rows: &Vec<Vec<u8>>) -> (groups: Vec<KeyGroup>)
    ensures
        groups_of(groups@, flat_keys(row_views(rows@))),
{
    let mut groups: Vec<KeyGroup> = Vec::new();
    let mut i: usize = 0;
    let ghost views = row_views(rows@);
    while i < rows.len()
        invariant
            i <= rows@.len(),
            views == row_views(rows@),
            groups_of(groups@, flat_keys(views.take(i as int))),
        decreases rows@.len() - i,
    {
        let row = &rows[i];
        let ghost before = flat_keys(views.take(i as int));
        assert(views[i as int] == row@);
        let mut j: usize = 0;
        assert(flat_row(i as int, row@.take(0)) =~= Seq::<(int, int, u8)>::empty());
        assert(before + flat_row(i as int, row@.take(0)) =~= before);
        while j < row.len()
            invariant
                i < rows@.len(),
                j <= row@.len(),
                groups_of(groups@, before + flat_row(i as int, row@.take(j as int))),
            decreases row@.len() - j,
        {
            let key = row[j];
            let ghost f = before + flat_row(i as int, row@.take(j as int));
            let ghost e = (i as int, j as int, key);
            let ghost f2 = f.push(e);
            assert(f2 =~= before + flat_row(i as int, row@.take(j + 1)));
            assert(f2.drop_last() =~= f);
            proof {
                lemma_first_keys_distinct(f);
            }
            let mut g: usize = 0;
            let mut found = false;
            while g < groups.len() && !found
                invariant
                    g <= groups@.len(),
                    found ==> g < groups@.len() && groups@[g as int].key == key,
                    forall|h: int| 0 <= h < g ==> (#[trigger] groups@[h]).key != key,
                decreases groups@.len() - g + (if found { 0int } else { 1int }),
            {
                if groups[g].key == key {
                    found = true;
                } else {
                    g = g + 1;
                }
            }
            if found {
                proof {
                    assert(first_keys(f)[g as int] == key);
                    assert(first_keys(f).contains(key));
                }
                let ghost old_groups = groups@;
                groups[g].positions.push((i, j));
                proof {
                    assert forall|h: int| 0 <= h < groups@.len() implies (#[trigger] groups@[h]).key
                        == first_keys(f2)[h] && int_pairs(groups@[h].positions@) == positions_of(
                        f2,
                        groups@[h].key,
                    ) by {
                        if h == g {
                            assert(int_pairs(groups@[h].positions@) =~= int_pairs(
                                old_groups[h].positions@,
                            ).push((i as int, j as int)));
                        } else {
                            assert(groups@[h] == old_groups[h]);
                            assert(first_keys(f)[h] != first_keys(f)[g as int]);
                        }
                    }
                }
            } else {
                proof {
                    assert(!first_keys(f).contains(key)) by {
                        if first_keys(f).contains(key) {
                            let h = choose|h: int| 0 <= h < first_keys(f).len() && first_keys(f)[h] == key;
                            assert(groups@[h].key == key);
                        }
                    }
                    lemma_first_keys_contains(f, key);
                }
                let mut positions: Vec<(usize, usize)> = Vec::new();
                positions.push((i, j));
                let ghost old_groups = groups@;
                groups.push(KeyGroup { key, positions });
                proof {
                    assert forall|h: int| 0 <= h < groups@.len() implies (#[trigger] groups@[h]).key
                        == first_keys(f2)[h] && int_pairs(groups@[h].positions@) == positions_of(
                        f2,
                        groups@[h].key,
                    ) by {
                        if h == old_groups.len() {
                            assert(positions_of(f, key) =~= Seq::<(int, int)>::empty()) by {
                                assert forall|e: int| 0 <= e < f.len() implies (#[trigger] f[e]).2 != key by {
                                    if f[e].2 == key {
                                        assert(exists|e: int| 0 <= e < f.len() && (#[trigger] f[e]).2 == key);
                                    }
                                }
                                lemma_positions_absent(f, key);
                            }
                            assert(int_pairs(groups@[h].positions@) =~= seq![(i as int, j as int)]);
                        } else {
                            assert(groups@[h] == old_groups[h]);
                            assert(first_keys(f)[h] != key);
                        }
                    }
                }
            }
            j = j + 1;
        }
        proof {
            assert(row@.take(row@.len() as int) =~= row@);
            assert(views.take(i + 1).drop_last() =~= views.take(i as int));
            assert(flat_keys(views.take(i + 1)) =~= before + flat_row(i as int, row@));
        }
        i = i + 1;
    }
    assert(views.take(rows@.len() as int) =~= views);
    groups
}

/// A key that no entry has occurs nowhere.
pub proof fn lemma_positions_absent(f: Seq<(int, int, u8)>, k: u8)
    requires
        forall|e: int| 0 <= e < f.len() ==> (#[trigger] f[e]).2 != k,
    ensures
        positions_of(f, k) == Seq::<(int, int)>::empty(),
    decreases f.len(),
{
    if f.len() > 0 {
        let g = f.drop_last();
        assert forall|e: int| 0 <= e < g.len() implies (#[trigger] g[e]).2 != k by {
            assert(g[e] == f[e]);
        }
        lemma_positions_absent(g, k);
        assert(f[f.len() - 1].2 != k);
    }
}

/// `x` names an entry of the rows and carries its key.
pub open spec fn entry_of(rows: Seq<Seq<u8>>, x: (int, int, u8)) -> bool {
    0 <= x.0 < rows.len() && 0 <= x.1 < rows[x.0].len() && rows[x.0][x.1] == x.2
}

/// Every flattened entry names an entry of the rows.
pub proof fn lemma_flat_keys_valid(rows: Seq<Seq<u8>>)
    ensures
        forall|e: int| 0 <= e < flat_keys(rows).len() ==> entry_of(rows, #[trigger] flat_keys(rows)[e]),
    decreases rows.len(),
{
    if rows.len() > 0 {
        let r = rows.drop_last();
        lemma_flat_keys_valid(r);
        let n = flat_keys(r).len();
        assert forall|e: int| 0 <= e < flat_keys(rows).len() implies entry_of(
            rows,
            #[trigger] flat_keys(rows)[e],
        ) by {
            if e < n {
                let x = flat_keys(r)[e];
                assert(flat_keys(rows)[e] == x);
                assert(rows[x.0] == r[x.0]);
            }
        }
    }
}

/// Every position of a key names an entry of the rows with that key.
pub proof fn lemma_positions_valid(rows: Seq<Seq<u8>>, f: Seq<(int, int, u8)>, k: u8)
    requires
        forall|e: int| 0 <= e < f.len() ==> entry_of(rows, #[trigger] f[e]),
    ensures
        forall|q: int|
            0 <= q < positions_of(f, k).len() ==> entry_of(
                rows,
                ((#[trigger] positions_of(f, k)[q]).0, positions_of(f, k)[q].1, k),
            ),
    decreases f.len(),
{
    if f.len() > 0 {
        let g = f.drop_last();
        assert forall|e: int| 0 <= e < g.len() implies entry_of(rows, #[trigger] g[e]) by {
            assert(g[e] == f[e]);
        }
        lemma_positions_valid(rows, g, k);
        assert(entry_of(rows, f[f.len() - 1]));
    }
}

/// A key among the distinct keys occurs somewhere.
pub proof fn lemma_positions_present(f: Seq<(int, int, u8)>, k: u8)
    requires
        first_keys(f).contains(k),
    ensures
        positions_of(f, k).len() > 0,
    decreases f.len(),
{
    if f.len() > 0 {
        let g = f.drop_last();
        if f.last().2 != k {
            let ks = first_keys(g);
            if !ks.contains(f.last().2) {
                let h = choose|h: int| 0 <= h < ks.len() + 1 && ks.push(f.last().2)[h] == k;
                assert(h < ks.len());
                assert(ks[h] == k);
            }
            lemma_positions_present(g, k);
        }
    }
}

/// Every row holds exactly `keys`.
pub open spec fn all_rows_are(rows: Seq<Seq<u8>>, keys: Seq<u8>) -> bool {
    forall|i: int| 0 <= i < rows.len() ==> #[trigger] rows[i] == keys
}

/// Entries whose keys all occur already leave the distinct keys as they are.
pub proof fn lemma_first_keys_append_known(f: Seq<(int, int, u8)>, g: Seq<(int, int, u8)>)
    requires
        forall|e: int| 0 <= e < g.len() ==> first_keys(f).contains((#[trigger] g[e]).2),
    ensures
        first_keys(f + g) == first_keys(f),
    decreases g.len(),
{
    if g.len() == 0 {
        assert(f + g =~= f);
    } else {
        let h = g.drop_last();
        assert forall|e: int| 0 <= e < h.len() implies first_keys(f).contains((#[trigger] h[e]).2) by {
            assert(h[e] == g[e]);
        }
        lemma_first_keys_append_known(f, h);
        assert((f + g).drop_last() =~= f + h);
        assert((f + g).last() == g[g.len() - 1]);
    }
}

/// The distinct keys of one row whose keys are distinct are its keys, in order.
pub proof fn lemma_first_keys_row(i: int, keys: Seq<u8>)
    requires
        keys.no_duplicates(),
    ensures
        first_keys(flat_row(i, keys)) == keys,
    decreases keys.len(),
{
    if keys.len() > 0 {
        let front = keys.drop_last();
        assert forall|a: int, b: int| 0 <= a < front.len() && 0 <= b < front.len() && a != b implies front[a]
            != front[b] by {
            assert(front[a] == keys[a] && front[b] == keys[b]);
        }
        lemma_first_keys_row(i, front);
        assert(flat_row(i, keys).drop_last() =~= flat_row(i, front));
        assert(flat_row(i, keys).last().2 == keys.last());
        if front.contains(keys.last()) {
            let h = choose|h: int| 0 <= h < front.len() && front[h] == keys.last();
            assert(keys[h] == keys[keys.len() - 1]);
        }
        assert(front.push(keys.last()) =~= keys);
    }
}

/// Where a key occurs among entries `f` then `g`: where it occurs in `f`, then in `g`.
pub proof fn lemma_positions_append(f: Seq<(int, int, u8)>, g: Seq<(int, int, u8)>, k: u8)
    ensures
        positions_of(f + g, k) == positions_of(f, k) + positions_of(g, k),
    decreases g.len(),
{
    if g.len() == 0 {
        assert(f + g =~= f);
        assert(positions_of(f, k) + Seq::<(int, int)>::empty() =~= positions_of(f, k));
    } else {
        let h = g.drop_last();
        lemma_positions_append(f, h, k);
        assert((f + g).drop_last() =~= f + h);
        assert((f + g).last() == g.last());
        if g.last().2 == k {
            assert(positions_of(f, k) + positions_of(h, k).push((g.last().0, g.last().1)) =~= (positions_of(f, k)
                + positions_of(h, k)).push((g.last().0, g.last().1)));
        }
    }
}

proof fn lemma_positions_row_prefix(i: int, keys: Seq<u8>, j: int, m: int)
    requires
        keys.no_duplicates(),
        0 <= j < keys.len(),
        0 <= m <= keys.len(),
    ensures
        positions_of(flat_row(i, keys.take(m)), keys[j]) == (if m <= j {
            Seq::<(int, int)>::empty()
        } else {
            seq![(i, j)]
        }),
    decreases m,
{
    if m > 0 {
        lemma_positions_row_prefix(i, keys, j, m - 1);
        assert(flat_row(i, keys.take(m)).drop_last() =~= flat_row(i, keys.take(m - 1)));
        assert(flat_row(i, keys.take(m)).last() == (i, m - 1, keys[m - 1]));
        if m - 1 != j {
            assert(keys[m - 1] != keys[j]);
        } else {
            assert(Seq::<(int, int)>::empty().push((i, j)) =~= seq![(i, j)]);
        }
    }
}

/// In a row whose keys are distinct, key `j` occurs once, at entry `j`.
pub proof fn lemma_positions_row(i: int, keys: Seq<u8>, j: int)
    requires
        keys.no_duplicates(),
        0 <= j < keys.len(),
    ensures
        positions_of(flat_row(i, keys), keys[j]) == seq![(i, j)],
{
    lemma_positions_row_prefix(i, keys, j, keys.len() as int);
    assert(keys.take(keys.len() as int) =~= keys);
}

/// Rows that all hold the same distinct keys: the distinct keys are those keys in
/// order, and key `j` occurs at entry `j` of each row, row by row.
pub proof fn lemma_uniform_rows(rows: Seq<Seq<u8>>, keys: Seq<u8>, j: int)
    requires
        keys.no_duplicates(),
        all_rows_are(rows, keys),
        rows.len() > 0,
        0 <= j < keys.len(),
    ensures
        first_keys(flat_keys(rows)) == keys,
        positions_of(flat_keys(rows), keys[j]) == Seq::new(rows.len(), |i: int| (i, j)),
    decreases rows.len(),
{
    let n = rows.len();
    let front = rows.drop_last();
    let f0 = flat_keys(front);
    let row = flat_row(n - 1, keys);
    assert(rows.last() == keys);
    assert(flat_keys(rows) == f0 + row);
    lemma_positions_append(f0, row, keys[j]);
    lemma_positions_row(n - 1, keys, j);
    if n == 1 {
        assert(f0 == Seq::<(int, int, u8)>::empty());
        assert(f0 + row =~= row);
        lemma_first_keys_row(n - 1, keys);
        assert(positions_of(f0, keys[j]) == Seq::<(int, int)>::empty());
        assert(Seq::<(int, int)>::empty() + seq![(0int, j)] =~= Seq::new(rows.len(), |i: int| (i, j)));
    } else {
        assert forall|i: int| 0 <= i < front.len() implies #[trigger] front[i] == keys by {
            assert(front[i] == rows[i]);
        }
        lemma_uniform_rows(front, keys, j);
        assert forall|e: int| 0 <= e < row.len() implies first_keys(f0).contains((#[trigger] row[e]).2) by {
            assert(row[e].2 == keys[e]);
        }
        lemma_first_keys_append_known(f0, row);
        assert(Seq::new(front.len(), |i: int| (i, j)) + seq![(n - 1, j)] =~= Seq::new(n, |i: int| (i, j)));
    }
}


/// Each row lists each key once, and a key in a row is in every earlier row.
pub open spec fn rows_nested(rows: Seq<Seq<u8>>) -> bool {
    &&& forall|i: int| 0 <= i < rows.len() ==> (#[trigger] rows[i]).no_duplicates()
    &&& forall|i: int, i2: int, k: u8|
        0 <= i < i2 < rows.len() && #[trigger] rows[i2].contains(k) ==> #[trigger] rows[i].contains(k)
}

/// In nested rows, key `k` occurs in the first rows and no later ones, once in each:
/// its `q`-th position is in row `q`.
pub proof fn lemma_nested_positions(rows: Seq<Seq<u8>>, k: u8)
    requires
        rows_nested(rows),
    ensures
        ({
            let p = positions_of(flat_keys(rows), k);
            &&& p.len() <= rows.len()
            &&& forall|i: int| 0 <= i < rows.len() ==> ((#[trigger] rows[i]).contains(k) <==> i < p.len())
            &&& forall|q: int|
                0 <= q < p.len() ==> (#[trigger] p[q]).0 == q && 0 <= p[q].1 < rows[q].len() && rows[q][p[q].1] == k
        }),
    decreases rows.len(),
{
    if rows.len() > 0 {
        let n = rows.len() as int;
        let front = rows.drop_last();
        let last = rows.last();
        assert forall|i: int, i2: int, x: u8|
            0 <= i < i2 < front.len() && #[trigger] front[i2].contains(x) implies #[trigger] front[i].contains(x) by {
            assert(front[i2] == rows[i2] && front[i] == rows[i]);
        }
        assert forall|i: int| 0 <= i < front.len() implies (#[trigger] front[i]).no_duplicates() by {
            assert(front[i] == rows[i]);
        }
        lemma_nested_positions(front, k);
        let f0 = flat_keys(front);
        let row = flat_row(n - 1, last);
        assert(flat_keys(rows) == f0 + row);
        lemma_positions_append(f0, row, k);
        let pf = positions_of(f0, k);
        let p = positions_of(flat_keys(rows), k);
        assert(last == rows[n - 1]);
        if last.contains(k) {
            let j = choose|j: int| 0 <= j < last.len() && last[j] == k;
            lemma_positions_row(n - 1, last, j);
            assert forall|i: int| 0 <= i < front.len() implies (#[trigger] front[i]).contains(k) by {
                assert(rows[n - 1].contains(k));
                assert(rows[i].contains(k));
                assert(front[i] == rows[i]);
            }
            if front.len() > 0 {
                assert(front[front.len() - 1].contains(k));
            }
            assert(pf.len() == n - 1);
            assert(p == pf + seq![(n - 1, j)]);
            assert forall|i: int| 0 <= i < rows.len() implies ((#[trigger] rows[i]).contains(k) <==> i < p.len()) by {
                if i < n - 1 {
                    assert(rows[i] == front[i]);
                }
            }
            assert forall|q: int| 0 <= q < p.len() implies (#[trigger] p[q]).0 == q && 0 <= p[q].1 < rows[q].len()
                && rows[q][p[q].1] == k by {
                if q < n - 1 {
                    assert(p[q] == pf[q]);
                    assert(rows[q] == front[q]);
                } else {
                    assert(p[q] == (n - 1, j));
                }
            }
        } else {
            assert forall|e: int| 0 <= e < row.len() implies (#[trigger] row[e]).2 != k by {
                assert(row[e].2 == last[e]);
            }
            lemma_positions_absent(row, k);
            assert(p =~= pf);
            assert forall|i: int| 0 <= i < rows.len() implies ((#[trigger] rows[i]).contains(k) <==> i < p.len()) by {
                if i < n - 1 {
                    assert(rows[i] == front[i]);
                }
            }
            assert forall|q: int| 0 <= q < p.len() implies (#[trigger] p[q]).0 == q && 0 <= p[q].1 < rows[q].len()
                && rows[q][p[q].1] == k by {
                assert(rows[q] == front[q]);
            }
        }
    }
}

} // verus!
