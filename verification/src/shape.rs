//! Products of dimensions, and the bound that keeps every such product
//! representable.
use vstd::prelude::*;

verus! {

/// The number of elements of a shape: the product of its dimensions.
pub open spec fn prod(s: Seq<usize>) -> nat
    decreases s.len(),
{
    if s.len() == 0 {
        1
    } else {
        prod(s.drop_last()) * (s.last() as nat)
    }
}

/// A dimension, counted as `1` when it is `0`.
pub open spec fn nz(d: usize) -> nat {
    if d == 0 {
        1
    } else {
        d as nat
    }
}

/// The product of the dimensions of a shape, each counted as at least `1`:
/// a bound on the product of any part of the shape.
pub open spec fn prod_nz(s: Seq<usize>) -> nat
    decreases s.len(),
{
    if s.len() == 0 {
        1
    } else {
        prod_nz(s.drop_last()) * nz(s.last())
    }
}

/// Every product of dimensions of the shape fits in a `usize`.
pub open spec fn shape_fits(s: Seq<usize>) -> bool {
    prod_nz(s) <= usize::MAX
}

pub proof fn lemma_prod_le_prod_nz(s: Seq<usize>)
    ensures
        prod(s) <= prod_nz(s),
        prod_nz(s) >= 1,
    decreases s.len(),
{
    if s.len() > 0 {
        lemma_prod_le_prod_nz(s.drop_last());
        let a = prod(s.drop_last());
        let b = prod_nz(s.drop_last());
        let d = s.last() as nat;
        let e = nz(s.last());
        assert(a * d <= b * e && b * e >= 1) by (nonlinear_arith)
            requires
                a <= b,
                b >= 1,
                d <= e,
                e >= 1,
        ;
    }
}

pub proof fn lemma_prod_split(s: Seq<usize>, i: int)
    requires
        0 <= i <= s.len(),
    ensures
        prod(s) == prod(s.take(i)) * prod(s.skip(i)),
        prod_nz(s) == prod_nz(s.take(i)) * prod_nz(s.skip(i)),
    decreases s.len(),
{
    if i == s.len() {
        assert(s.take(i) =~= s);
        assert(s.skip(i) =~= Seq::<usize>::empty());
    } else {
        lemma_prod_split(s.drop_last(), i);
        assert(s.drop_last().take(i) =~= s.take(i));
        assert(s.drop_last().skip(i) =~= s.skip(i).drop_last());
        assert(s.skip(i).last() == s.last());
        let a = prod(s.take(i));
        let b = prod(s.skip(i).drop_last());
        let d = s.last() as nat;
        assert(a * b * d == a * (b * d)) by (nonlinear_arith);
        let an = prod_nz(s.take(i));
        let bn = prod_nz(s.skip(i).drop_last());
        let dn = nz(s.last());
        assert(an * bn * dn == an * (bn * dn)) by (nonlinear_arith);
    }
}

/// The bound of a part of a shape is at most the bound of the whole shape.
pub proof fn lemma_prod_nz_subrange(s: Seq<usize>, lo: int, hi: int)
    requires
        0 <= lo <= hi <= s.len(),
    ensures
        prod_nz(s.subrange(lo, hi)) <= prod_nz(s),
        prod(s.subrange(lo, hi)) <= prod_nz(s),
{
    lemma_prod_split(s, hi);
    let t = s.take(hi);
    lemma_prod_split(t, lo);
    assert(t.skip(lo) =~= s.subrange(lo, hi));
    lemma_prod_le_prod_nz(s.skip(hi));
    lemma_prod_le_prod_nz(t.take(lo));
    lemma_prod_le_prod_nz(s.subrange(lo, hi));
    let a = prod_nz(t.take(lo));
    let b = prod_nz(s.subrange(lo, hi));
    let c = prod_nz(s.skip(hi));
    assert(b <= a * b * c) by (nonlinear_arith)
        requires
            a >= 1,
            c >= 1,
    ;
}

/// The product of one more dimension.
pub proof fn lemma_prod_subrange_step(s: Seq<usize>, lo: int, i: int)
    requires
        0 <= lo <= i < s.len(),
    ensures
        prod(s.subrange(lo, i + 1)) == prod(s.subrange(lo, i)) * (s[i] as nat),
{
    assert(s.subrange(lo, i + 1).drop_last() =~= s.subrange(lo, i));
}

/// The product of the dimensions `lo..hi` of `dims`.
pub fn prod_range(dims: &Vec<usize>, lo: usize, hi: usize) -> (r: usize)
    requires
        lo <= hi <= dims@.len(),
        shape_fits(dims@),
    ensures
        r == prod(dims@.subrange(lo as int, hi as int)),
{
    let mut acc: usize = 1;
    let mut i: usize = lo;
    assert(dims@.subrange(lo as int, lo as int) =~= Seq::<usize>::empty());
    while i < hi
        invariant
            lo <= i <= hi <= dims@.len(),
            shape_fits(dims@),
            acc == prod(dims@.subrange(lo as int, i as int)),
        decreases hi - i,
    {
        proof {
            lemma_prod_subrange_step(dims@, lo as int, i as int);
            lemma_prod_nz_subrange(dims@, lo as int, i + 1);
        }
        acc = acc * dims[i];
        i += 1;
    }
    acc
}

/// The number of elements of a shape.
pub fn num_elements(dims: &Vec<usize>) -> (r: usize)
    requires
        shape_fits(dims@),
    ensures
        r == prod(dims@),
{
    let r = prod_range(dims, 0, dims.len());
    assert(dims@.subrange(0, dims@.len() as int) =~= dims@);
    r
}

/// Setting one dimension to `1` keeps a shape within the bound.
pub proof fn lemma_prod_nz_update_one(s: Seq<usize>, i: int)
    requires
        0 <= i < s.len(),
    ensures
        prod_nz(s.update(i, 1)) <= prod_nz(s),
{
    let t = s.update(i, 1);
    lemma_prod_split(s, i);
    lemma_prod_split(t, i);
    lemma_prod_split(s.skip(i), 1);
    lemma_prod_split(t.skip(i), 1);
    assert(t.take(i) =~= s.take(i));
    assert(t.skip(i).skip(1) =~= s.skip(i).skip(1));
    let st = s.skip(i).take(1);
    let tt = t.skip(i).take(1);
    assert(st.drop_last() =~= Seq::<usize>::empty());
    assert(tt.drop_last() =~= Seq::<usize>::empty());
    assert(tt.last() == 1usize);
    assert(st.last() == s[i]);
    assert(prod_nz(Seq::<usize>::empty()) == 1);
    assert(prod_nz(tt) == prod_nz(tt.drop_last()) * nz(tt.last()));
    assert(prod_nz(st) == prod_nz(st.drop_last()) * nz(st.last()));
    assert(prod_nz(tt.drop_last()) == 1);
    assert(prod_nz(st.drop_last()) == 1);
    assert(prod_nz(tt) == 1);
    assert(nz(st.last()) == nz(s[i]));
    let x = nz(st.last());
    assert(1 * x == x) by (nonlinear_arith);
    assert(prod_nz(st) == nz(s[i]));
    lemma_prod_le_prod_nz(s.take(i));
    lemma_prod_le_prod_nz(s.skip(i).skip(1));
    let a = prod_nz(s.take(i));
    let c = prod_nz(s.skip(i).skip(1));
    let d = nz(s[i]);
    assert(a * (1 * c) <= a * (d * c)) by (nonlinear_arith)
        requires
            a >= 1,
            c >= 1,
            d >= 1,
    ;
}

/// Whether two shapes are equal.
pub fn dims_eq(a: &Vec<usize>, b: &Vec<usize>) -> (r: bool)
    ensures
        r == (a@ == b@),
{
    if a.len() != b.len() {
        return false;
    }
    let mut i: usize = 0;
    while i < a.len()
        invariant
            a@.len() == b@.len(),
            i <= a@.len(),
            forall|k: int| 0 <= k < i ==> a@[k] == b@[k],
        decreases a@.len() - i,
    {
        if a[i] != b[i] {
            return false;
        }
        i += 1;
    }
    assert(a@ =~= b@);
    true
}

/// A copy of a shape.
pub fn copy_dims(a: &Vec<usize>) -> (r: Vec<usize>)
    ensures
        r@ == a@,
{
    let mut r: Vec<usize> = Vec::new();
    let mut i: usize = 0;
    while i < a.len()
        invariant
            i <= a@.len(),
            r@ == a@.take(i as int),
        decreases a@.len() - i,
    {
        r.push(a[i]);
        i += 1;
        assert(r@ =~= a@.take(i as int));
    }
    assert(a@.take(a@.len() as int) =~= a@);
    r
}

/// A shape of rank one.
pub proof fn lemma_shape_1(n: usize)
    ensures
        prod(seq![n]) == n,
        prod_nz(seq![n]) == nz(n),
        shape_fits(seq![n]),
{
    assert(seq![n].drop_last() =~= Seq::<usize>::empty());
    assert(prod(seq![n]) == prod(Seq::<usize>::empty()) * (n as nat));
    assert(prod_nz(seq![n]) == prod_nz(Seq::<usize>::empty()) * nz(n));
    assert(1 * (n as nat) == n) by (nonlinear_arith);
    assert(1 * nz(n) == nz(n)) by (nonlinear_arith);
}

/// A shape of rank two.
pub proof fn lemma_shape_2(a: usize, b: usize)
    ensures
        prod(seq![a, b]) == a * b,
        nz(a) * nz(b) <= usize::MAX ==> shape_fits(seq![a, b]),
{
    lemma_shape_1(a);
    assert(seq![a, b].drop_last() =~= seq![a]);
    assert(prod(seq![a, b]) == prod(seq![a]) * (b as nat));
    assert(prod_nz(seq![a, b]) == prod_nz(seq![a]) * nz(b));
}

/// The product from `lo` on is the dimension at `lo` times the product from `lo + 1` on.
pub proof fn lemma_prod_from(s: Seq<usize>, lo: int)
    requires
        0 <= lo < s.len(),
    ensures
        prod(s.subrange(lo, s.len() as int)) == (s[lo] as nat) * prod(s.subrange(lo + 1, s.len() as int)),
{
    let t = s.subrange(lo, s.len() as int);
    lemma_prod_split(t, 1);
    assert(t.take(1) =~= seq![s[lo]]);
    assert(t.skip(1) =~= s.subrange(lo + 1, s.len() as int));
    lemma_shape_1(s[lo]);
}

/// The whole product splits at `dim`.
pub proof fn lemma_prod_at(s: Seq<usize>, dim: int)
    requires
        0 <= dim <= s.len(),
    ensures
        prod(s) == prod(s.subrange(0, dim)) * prod(s.subrange(dim, s.len() as int)),
{
    lemma_prod_split(s, dim);
    assert(s.take(dim) =~= s.subrange(0, dim));
    assert(s.skip(dim) =~= s.subrange(dim, s.len() as int));
}

/// Making one dimension smaller (counting `0` as `1`) keeps a shape within the bound.
pub proof fn lemma_prod_nz_update_le(s: Seq<usize>, i: int, v: usize)
    requires
        0 <= i < s.len(),
        nz(v) <= nz(s[i]),
    ensures
        prod_nz(s.update(i, v)) <= prod_nz(s),
{
    let t = s.update(i, v);
    lemma_prod_split(s, i);
    lemma_prod_split(t, i);
    lemma_prod_split(s.skip(i), 1);
    lemma_prod_split(t.skip(i), 1);
    assert(t.take(i) =~= s.take(i));
    assert(t.skip(i).skip(1) =~= s.skip(i).skip(1));
    assert(s.skip(i).take(1) =~= seq![s[i]]);
    assert(t.skip(i).take(1) =~= seq![v]);
    lemma_shape_1(s[i]);
    lemma_shape_1(v);
    lemma_prod_le_prod_nz(s.take(i));
    lemma_prod_le_prod_nz(s.skip(i).skip(1));
    let a = prod_nz(s.take(i));
    let c = prod_nz(s.skip(i).skip(1));
    let d = nz(s[i]);
    let e = nz(v);
    assert(a * (e * c) <= a * (d * c)) by (nonlinear_arith)
        requires
            a >= 1,
            c >= 1,
            e <= d,
    ;
}

} // verus!
