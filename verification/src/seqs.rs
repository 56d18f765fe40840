use vstd::prelude::*;

verus! {

broadcast use {vstd::seq::group_seq_axioms, vstd::slice::group_slice_axioms};

/// The bytes held by an optional buffer.
pub open spec fn opt_bytes(r: Option<Vec<u8>>) -> Option<Seq<u8>> {
    match r {
        Some(v) => Some(v@),
        None => None,
    }
}

/// The sum of a sequence of integers.
pub open spec fn sum(s: Seq<int>) -> int
    decreases s.len(),
{
    if s.len() == 0 {
        0
    } else {
        sum(s.drop_last()) + s.last()
    }
}

/// The pieces of `s`, one after the other.
pub open spec fn concat(s: Seq<Seq<u8>>) -> Seq<u8>
    decreases s.len(),
{
    if s.len() == 0 {
        Seq::empty()
    } else {
        concat(s.drop_last()) + s.last()
    }
}

/// The lengths of the pieces of `s`.
pub open spec fn piece_lens(s: Seq<Seq<u8>>) -> Seq<int> {
    Seq::new(s.len(), |i: int| s[i].len() as int)
}

pub proof fn lemma_sum_take_step(s: Seq<int>, k: int)
    requires
        0 <= k < s.len(),
    ensures
        sum(s.take(k + 1)) == sum(s.take(k)) + s[k],
{
    assert(s.take(k + 1).drop_last() =~= s.take(k));
}

pub proof fn lemma_sum_full(s: Seq<int>)
    ensures
        sum(s.take(s.len() as int)) == sum(s),
{
    assert(s.take(s.len() as int) =~= s);
}

/// Sums of nonnegative terms grow with the prefix taken.
pub proof fn lemma_sum_take_mono(s: Seq<int>, j: int, k: int)
    requires
        0 <= j <= k <= s.len(),
        forall|i: int| 0 <= i < s.len() ==> s[i] >= 0,
    ensures
        sum(s.take(j)) <= sum(s.take(k)),
    decreases k - j,
{
    if j < k {
        lemma_sum_take_step(s, k - 1);
        lemma_sum_take_mono(s, j, k - 1);
    }
}

/// A prefix sum is bounded termwise.
pub proof fn lemma_sum_take_le(s: Seq<int>, t: Seq<int>, k: int)
    requires
        0 <= k <= s.len(),
        s.len() == t.len(),
        forall|i: int| 0 <= i < s.len() ==> s[i] <= t[i],
    ensures
        sum(s.take(k)) <= sum(t.take(k)),
    decreases k,
{
    if k > 0 {
        lemma_sum_take_step(s, k - 1);
        lemma_sum_take_step(t, k - 1);
        lemma_sum_take_le(s, t, k - 1);
    }
}

/// A sum of a constant.
pub proof fn lemma_sum_take_const(s: Seq<int>, c: int, k: int)
    requires
        0 <= k <= s.len(),
        forall|i: int| 0 <= i < s.len() ==> s[i] == c,
    ensures
        sum(s.take(k)) == c * k,
    decreases k,
{
    if k > 0 {
        lemma_sum_take_step(s, k - 1);
        lemma_sum_take_const(s, c, k - 1);
        assert(c * (k - 1) + c == c * k) by (nonlinear_arith);
    } else {
        assert(s.take(k).len() == 0);
        assert(c * k == 0) by (nonlinear_arith)
            requires
                k == 0,
        ;
    }
}

pub proof fn lemma_concat_len(s: Seq<Seq<u8>>)
    ensures
        concat(s).len() == sum(piece_lens(s)),
    decreases s.len(),
{
    if s.len() > 0 {
        lemma_concat_len(s.drop_last());
        assert(piece_lens(s).drop_last() =~= piece_lens(s.drop_last()));
    }
}

pub proof fn lemma_concat_take_step(s: Seq<Seq<u8>>, k: int)
    requires
        0 <= k < s.len(),
    ensures
        concat(s.take(k + 1)) == concat(s.take(k)) + s[k],
{
    assert(s.take(k + 1).drop_last() =~= s.take(k));
}

/// The prefix of the concatenation before piece `i` is as long as the
/// pieces before it.
pub proof fn lemma_concat_take_len(s: Seq<Seq<u8>>, i: int)
    requires
        0 <= i <= s.len(),
    ensures
        concat(s.take(i)).len() == sum(piece_lens(s).take(i)),
{
    lemma_concat_len(s.take(i));
    assert(piece_lens(s.take(i)) =~= piece_lens(s).take(i));
}

/// Piece `i` stands in the concatenation right after the pieces before it.
pub proof fn lemma_concat_piece(s: Seq<Seq<u8>>, i: int)
    requires
        0 <= i < s.len(),
    ensures
        concat(s.take(i)).len() + s[i].len() <= concat(s).len(),
        concat(s).subrange(
            concat(s.take(i)).len() as int,
            (concat(s.take(i)).len() + s[i].len()) as int,
        ) == s[i],
    decreases s.len(),
{
    let l = concat(s.take(i)).len() as int;
    if i == s.len() - 1 {
        assert(s.take(i) =~= s.drop_last());
        assert(concat(s).subrange(l, l + s[i].len()) =~= s[i]);
    } else {
        let d = s.drop_last();
        lemma_concat_piece(d, i);
        assert(d.take(i) =~= s.take(i));
        assert(concat(s).subrange(l, l + s[i].len()) =~= concat(d).subrange(l, l + s[i].len()));
    }
}

/// Appends `bytes` to `out`.
pub fn append_bytes(out: &mut Vec<u8>, bytes: &[u8])
    ensures
        final(out)@ == old(out)@ + bytes@,
{
    out.extend_from_slice(bytes);
    assert(final(out)@ =~= old(out)@ + bytes@);
}

/// Whether `a` and `b` hold the same bytes.
pub fn bytes_eq(a: &[u8], b: &[u8]) -> (r: bool)
    ensures
        r == (a@ == b@),
{
    if a.len() != b.len() {
        return false;
    }
    let mut i: usize = 0;
    while i < a.len()
        invariant
            a@.len() == b@.len(),
            i <= a@.len(),
            forall|j: int| 0 <= j < i ==> a@[j] == b@[j],
        decreases a@.len() - i,
    {
        if a[i] != b[i] {
            return false;
        }
        i += 1;
    }
    assert(a@ =~= b@);
    true
}

} // verus!
