//! Dense sets over a finite universe, kept as rows of booleans, and the
//! counting facts that bound the saturation loops built on them.
use vstd::prelude::*;

verus! {

/// The number of `false` entries of a row.
pub open spec fn count_false(s: Seq<bool>) -> nat
    decreases s.len(),
{
    if s.len() == 0 {
        0
    } else {
        count_false(s.drop_last()) + (if s.last() {
            0nat
        } else {
            1nat
        })
    }
}

/// Pointwise inclusion of rows of the same length.
pub open spec fn row_le(a: Seq<bool>, b: Seq<bool>) -> bool {
    &&& a.len() == b.len()
    &&& forall|i: int| 0 <= i < a.len() && #[trigger] a[i] ==> b[i]
}

/// Some entry is `false` in `a` and `true` in `b`.
pub open spec fn row_grew(a: Seq<bool>, b: Seq<bool>) -> bool {
    exists|i: int| 0 <= i < a.len() && !a[i] && #[trigger] b[i]
}

pub proof fn lemma_count_false_mono(a: Seq<bool>, b: Seq<bool>)
    requires
        row_le(a, b),
    ensures
        count_false(b) <= count_false(a),
        row_grew(a, b) ==> count_false(b) < count_false(a),
    decreases a.len(),
{
    if a.len() > 0 {
        let a1 = a.drop_last();
        let b1 = b.drop_last();
        assert(row_le(a1, b1)) by {
            assert forall|i: int| 0 <= i < a1.len() && #[trigger] a1[i] implies b1[i] by {
                assert(a[i]);
            }
        }
        lemma_count_false_mono(a1, b1);
        if row_grew(a, b) {
            let i = choose|i: int| 0 <= i < a.len() && !a[i] && #[trigger] b[i];
            if i < a.len() - 1 {
                assert(!a1[i] && b1[i]);
                assert(row_grew(a1, b1));
            }
        }
    }
}

/// The number of `false` entries of a table.
pub open spec fn table_count_false(t: Seq<Seq<bool>>) -> nat
    decreases t.len(),
{
    if t.len() == 0 {
        0
    } else {
        table_count_false(t.drop_last()) + count_false(t.last())
    }
}

/// Every row has length `w`.
pub open spec fn table_shape(t: Seq<Seq<bool>>, rows: nat, w: nat) -> bool {
    &&& t.len() == rows
    &&& forall|i: int| 0 <= i < rows ==> (#[trigger] t[i]).len() == w
}

/// Pointwise inclusion of tables of the same shape.
pub open spec fn table_le(a: Seq<Seq<bool>>, b: Seq<Seq<bool>>) -> bool {
    &&& a.len() == b.len()
    &&& forall|i: int| 0 <= i < a.len() ==> row_le(#[trigger] a[i], b[i])
}

pub open spec fn table_grew(a: Seq<Seq<bool>>, b: Seq<Seq<bool>>) -> bool {
    exists|i: int, k: int| 0 <= i < a.len() && 0 <= k < a[i].len() && !a[i][k] && #[trigger] b[i][k]
}

pub proof fn lemma_table_count_false_mono(a: Seq<Seq<bool>>, b: Seq<Seq<bool>>)
    requires
        table_le(a, b),
    ensures
        table_count_false(b) <= table_count_false(a),
        table_grew(a, b) ==> table_count_false(b) < table_count_false(a),
    decreases a.len(),
{
    if a.len() > 0 {
        let a1 = a.drop_last();
        let b1 = b.drop_last();
        assert(table_le(a1, b1)) by {
            assert forall|i: int| 0 <= i < a1.len() implies row_le(#[trigger] a1[i], b1[i]) by {
                assert(row_le(a[i], b[i]));
            }
        }
        lemma_table_count_false_mono(a1, b1);
        assert(row_le(a.last(), b.last())) by {
            assert(row_le(a[a.len() - 1], b[a.len() - 1]));
        }
        lemma_count_false_mono(a.last(), b.last());
        if table_grew(a, b) {
            let (i, k) = choose|i: int, k: int|
                0 <= i < a.len() && 0 <= k < a[i].len() && !a[i][k] && #[trigger] b[i][k];
            if i < a.len() - 1 {
                assert(!a1[i][k] && b1[i][k]);
                assert(table_grew(a1, b1));
            } else {
                assert(!a.last()[k] && b.last()[k]);
                assert(row_grew(a.last(), b.last()));
            }
        }
    }
}

pub proof fn lemma_table_le_refl(a: Seq<Seq<bool>>)
    ensures
        table_le(a, a),
{
}

pub proof fn lemma_table_le_trans(a: Seq<Seq<bool>>, b: Seq<Seq<bool>>, c: Seq<Seq<bool>>)
    requires
        table_le(a, b),
        table_le(b, c),
    ensures
        table_le(a, c),
{
    assert forall|i: int| 0 <= i < a.len() implies row_le(#[trigger] a[i], c[i]) by {
        assert(row_le(a[i], b[i]));
        assert(row_le(b[i], c[i]));
        assert forall|k: int| 0 <= k < a[i].len() && #[trigger] a[i][k] implies c[i][k] by {
            assert(b[i][k]);
        }
    }
}

pub proof fn lemma_table_antisym(a: Seq<Seq<bool>>, b: Seq<Seq<bool>>)
    requires
        table_le(a, b),
        table_le(b, a),
    ensures
        a == b,
{
    assert forall|i: int| 0 <= i < a.len() implies #[trigger] a[i] =~= b[i] by {
        assert(row_le(a[i], b[i]));
        assert(row_le(b[i], a[i]));
        assert forall|k: int| 0 <= k < a[i].len() implies a[i][k] == b[i][k] by {
            if a[i][k] {
                assert(b[i][k]);
            }
            if b[i][k] {
                assert(a[i][k]);
            }
        }
    }
    assert(a =~= b);
}

/// The rows of a table of vectors, as sequences.
pub open spec fn tview(t: Seq<Vec<bool>>) -> Seq<Seq<bool>> {
    Seq::new(t.len(), |i: int| t[i]@)
}

/// A row of `w` entries, all `false`.
pub fn new_row(w: usize) -> (res: Vec<bool>)
    ensures
        res@.len() == w,
        forall|k: int| 0 <= k < w ==> !(#[trigger] res@[k]),
{
    let mut res: Vec<bool> = Vec::new();
    let mut i: usize = 0;
    while i < w
        invariant
            i <= w,
            res@.len() == i,
            forall|k: int| 0 <= k < i ==> !(#[trigger] res@[k]),
        decreases w - i,
    {
        res.push(false);
        i = i + 1;
    }
    res
}

/// A row of `w` entries, all `true`.
pub fn full_row(w: usize) -> (res: Vec<bool>)
    ensures
        res@.len() == w,
        forall|k: int| 0 <= k < w ==> #[trigger] res@[k],
{
    let mut res: Vec<bool> = Vec::new();
    let mut i: usize = 0;
    while i < w
        invariant
            i <= w,
            res@.len() == i,
            forall|k: int| 0 <= k < i ==> #[trigger] res@[k],
        decreases w - i,
    {
        res.push(true);
        i = i + 1;
    }
    res
}

/// A table of `rows` rows of `w` entries, all `false`.
pub fn new_table(rows: usize, w: usize) -> (res: Vec<Vec<bool>>)
    ensures
        table_shape(tview(res@), rows as nat, w as nat),
        forall|i: int, k: int| 0 <= i < rows && 0 <= k < w ==> !(#[trigger] res@[i]@[k]),
{
    let mut res: Vec<Vec<bool>> = Vec::new();
    let mut i: usize = 0;
    while i < rows
        invariant
            i <= rows,
            res@.len() == i,
            forall|j: int| 0 <= j < i ==> (#[trigger] res@[j])@.len() == w,
            forall|j: int, k: int| 0 <= j < i && 0 <= k < w ==> !(#[trigger] res@[j]@[k]),
        decreases rows - i,
    {
        res.push(new_row(w));
        i = i + 1;
    }
    res
}

/// Copies a row.
pub fn copy_row(r: &Vec<bool>) -> (res: Vec<bool>)
    ensures
        res@ == r@,
{
    let mut res: Vec<bool> = Vec::new();
    let mut i: usize = 0;
    while i < r.len()
        invariant
            i <= r@.len(),
            res@ == r@.subrange(0, i as int),
        decreases r@.len() - i,
    {
        res.push(r[i]);
        i = i + 1;
    }
    res
}

} // verus!
