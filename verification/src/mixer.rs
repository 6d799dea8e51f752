//! The mixer: sums the buffers of the sounding voices sample by sample and
//! divides by their number, so that the mix is never louder than its loudest
//! voice.

use vstd::prelude::*;

verus! {

/// The samples of a buffer as integers.
pub open spec fn as_ints(data: Seq<i32>) -> Seq<int> {
    Seq::new(data.len(), |i: int| data[i] as int)
}

/// The buffers of the voices, each as a sequence of samples.
pub open spec fn buffers(voices: Seq<Vec<i32>>) -> Seq<Seq<int>> {
    Seq::new(voices.len(), |v: int| as_ints(voices[v]@))
}

/// Sample `i` of a buffer; silence past its end.
pub open spec fn sample_at(buffer: Seq<int>, i: int) -> int {
    if 0 <= i < buffer.len() {
        buffer[i]
    } else {
        0
    }
}

/// Sum of sample `i` over all the buffers.
pub open spec fn column_sum(voices: Seq<Seq<int>>, i: int) -> int
    decreases voices.len(),
{
    if voices.len() == 0 {
        0
    } else {
        column_sum(voices.drop_last(), i) + sample_at(voices.last(), i)
    }
}

/// A sum of `count` samples brought back to the scale of one: the quotient,
/// rounded towards silence; silence where there is no voice.
pub open spec fn normalized(sum: int, count: int) -> int {
    if count <= 0 {
        0
    } else if sum >= 0 {
        sum / count
    } else {
        -((-sum) / count)
    }
}

/// The mix of the buffers over `len` samples.
pub open spec fn mixed(voices: Seq<Seq<int>>, len: nat) -> Seq<int> {
    Seq::new(len, |i: int| normalized(column_sum(voices, i), voices.len() as int))
}

/// A sum over `voices` lies within the range of one sample times their number.
proof fn lemma_column_sum_bounded(voices: Seq<Seq<int>>, i: int, low: int, high: int)
    requires
        low <= 0 <= high,
        forall|v: int, k: int|
            0 <= v < voices.len() && 0 <= k < voices[v].len() ==> low <= #[trigger] voices[v][k]
                <= high,
    ensures
        voices.len() * low <= column_sum(voices, i) <= voices.len() * high,
    decreases voices.len(),
{
    if voices.len() > 0 {
        let rest = voices.drop_last();
        assert forall|v: int, k: int| 0 <= v < rest.len() && 0 <= k < rest[v].len() implies low
            <= #[trigger] rest[v][k] <= high by {
            assert(rest[v] == voices[v]);
        }
        lemma_column_sum_bounded(rest, i, low, high);
        let last = voices.last();
        assert(low <= sample_at(last, i) <= high) by {
            if 0 <= i < last.len() {
                assert(last[i] == voices[voices.len() - 1][i]);
            }
        }
        assert(rest.len() * low + low == voices.len() * low) by (nonlinear_arith)
            requires
                rest.len() + 1 == voices.len(),
        ;
        assert(rest.len() * high + high == voices.len() * high) by (nonlinear_arith)
            requires
                rest.len() + 1 == voices.len(),
        ;
    }
}

/// A sum within `count` times a range comes back into that range.
proof fn lemma_normalized_bounded(sum: int, count: int, low: int, high: int)
    requires
        low <= 0 <= high,
        count > 0 ==> count * low <= sum <= count * high,
    ensures
        low <= normalized(sum, count) <= high,
{
    if count > 0 {
        if sum >= 0 {
            assert(0 <= sum / count <= high) by (nonlinear_arith)
                requires
                    count > 0,
                    0 <= sum <= count * high,
            ;
        } else {
            assert(count * (-low) == -(count * low)) by (nonlinear_arith);
            assert(0 <= (-sum) / count <= -low) by (nonlinear_arith)
                requires
                    count > 0,
                    0 <= -sum <= count * (-low),
            ;
        }
    }
}

/// However many voices sound, none, one or many, the mix is no louder than
/// the loudest of them: where every sample of every voice lies within `peak`
/// of silence, so does every sample of the mix.
pub proof fn lemma_mix_bounded(voices: Seq<Seq<int>>, len: nat, peak: nat)
    requires
        forall|v: int, k: int|
            0 <= v < voices.len() && 0 <= k < voices[v].len() ==> -peak <= #[trigger] voices[v][k]
                <= peak,
    ensures
        forall|i: int| 0 <= i < len ==> -peak <= #[trigger] mixed(voices, len)[i] <= peak,
{
    assert forall|i: int| 0 <= i < len implies -peak <= #[trigger] mixed(voices, len)[i]
        <= peak by {
        lemma_column_sum_bounded(voices, i, -peak, peak as int);
        lemma_normalized_bounded(column_sum(voices, i), voices.len() as int, -peak, peak as int);
    }
}

/// Leaving out one voice takes its sample out of the sum.
proof fn lemma_column_sum_remove(voices: Seq<Seq<int>>, j: int, i: int)
    requires
        0 <= j < voices.len(),
    ensures
        column_sum(voices, i) == column_sum(voices.remove(j), i) + sample_at(voices[j], i),
    decreases voices.len(),
{
    if j == voices.len() - 1 {
        assert(voices.remove(j) =~= voices.drop_last());
    } else {
        let rest = voices.drop_last();
        lemma_column_sum_remove(rest, j, i);
        assert(voices.remove(j).drop_last() =~= rest.remove(j));
        assert(voices.remove(j).last() == voices.last());
    }
}

/// A sum over the same voices in another order is the same sum.
proof fn lemma_column_sum_order(a: Seq<Seq<int>>, b: Seq<Seq<int>>, i: int)
    requires
        a.to_multiset() == b.to_multiset(),
    ensures
        column_sum(a, i) == column_sum(b, i),
    decreases a.len(),
{
    a.to_multiset_ensures();
    b.to_multiset_ensures();
    if a.len() > 0 {
        let last = a.last();
        assert(a.contains(last)) by {
            assert(a[a.len() - 1] == last);
        }
        assert(a.to_multiset().count(last) > 0);
        assert(b.to_multiset().count(last) > 0);
        assert(b.contains(last));
        let j = choose|j: int| 0 <= j < b.len() && b[j] == last;
        assert(a.drop_last() =~= a.remove(a.len() - 1));
        lemma_column_sum_order(a.drop_last(), b.remove(j), i);
        lemma_column_sum_remove(b, j, i);
    }
}

/// The mix does not depend on the order of the voices.
pub proof fn lemma_mix_order(a: Seq<Seq<int>>, b: Seq<Seq<int>>, len: nat)
    requires
        a.to_multiset() == b.to_multiset(),
    ensures
        mixed(a, len) == mixed(b, len),
{
    a.to_multiset_ensures();
    b.to_multiset_ensures();
    assert forall|i: int| 0 <= i < len implies mixed(a, len)[i] == mixed(b, len)[i] by {
        lemma_column_sum_order(a, b, i);
    }
    assert(mixed(a, len) =~= mixed(b, len));
}

/// With no voice the mix is silence.
pub proof fn lemma_mix_of_none(len: nat)
    ensures
        mixed(Seq::<Seq<int>>::empty(), len) == Seq::new(len, |i: int| 0int),
{
    assert(mixed(Seq::<Seq<int>>::empty(), len) =~= Seq::new(len, |i: int| 0int));
}

/// The mix of one voice alone is that voice, silent past its end.
pub proof fn lemma_mix_of_one(voice: Seq<int>, len: nat)
    ensures
        mixed(seq![voice], len) == Seq::new(len, |i: int| sample_at(voice, i)),
{
    assert forall|i: int| 0 <= i < len implies mixed(seq![voice], len)[i] == sample_at(
        voice,
        i,
    ) by {
        let one = seq![voice];
        assert(one.drop_last() =~= Seq::<Seq<int>>::empty());
        assert(one.last() == voice);
        assert(column_sum(one, i) == column_sum(one.drop_last(), i) + sample_at(voice, i));
        assert(column_sum(one.drop_last(), i) == 0);
        let sum = sample_at(voice, i);
        assert(sum / 1 == sum && (-sum) / 1 == -sum);
        assert(mixed(one, len)[i] == normalized(column_sum(one, i), 1));
    }
    assert(mixed(seq![voice], len) =~= Seq::new(len, |i: int| sample_at(voice, i)));
}

/// Mixes the buffers of the voices into one buffer of `buffer_len` samples.
///
/// Every buffer given counts as a voice. A buffer shorter than `buffer_len`
/// is silent past its end; what a longer one holds past `buffer_len` is left out.
pub fn mix(voices: &Vec<Vec<i32>>, buffer_len: usize) -> (data: Vec<i32>)
    ensures
        as_ints(data@) == mixed(buffers(voices@), buffer_len as nat),
{
    let count = voices.len();
    let ghost all = buffers(voices@);
    let mut data: Vec<i32> = Vec::new();
    let mut i: usize = 0;
    while i < buffer_len
        invariant
            i <= buffer_len,
            count == voices@.len(),
            all == buffers(voices@),
            data@.len() == i,
            forall|k: int|
                0 <= k < i ==> data@[k] as int == normalized(column_sum(all, k), count as int),
        decreases buffer_len - i,
    {
        let mut sum: i128 = 0;
        let mut v: usize = 0;
        while v < count
            invariant
                v <= count,
                count == voices@.len(),
                all == buffers(voices@),
                sum == column_sum(all.take(v as int), i as int),
                v * i32::MIN <= sum <= v * i32::MAX,
            decreases count - v,
        {
            let buffer = &voices[v];
            let sample: i32 = if i < buffer.len() {
                buffer[i]
            } else {
                0
            };
            proof {
                let upto = all.take(v as int + 1);
                assert(upto.drop_last() =~= all.take(v as int));
                assert(upto.last() == as_ints(voices@[v as int]@));
                assert(sample as int == sample_at(upto.last(), i as int));
            }
            sum = sum + sample as i128;
            v += 1;
        }
        assert(all.take(count as int) =~= all);
        let quotient: i128 = if count == 0 {
            0
        } else if sum >= 0 {
            sum / (count as i128)
        } else {
            -((-sum) / (count as i128))
        };
        proof {
            lemma_normalized_bounded(sum as int, count as int, i32::MIN as int, i32::MAX as int);
        }
        data.push(quotient as i32);
        i += 1;
    }
    assert(as_ints(data@) =~= mixed(all, buffer_len as nat));
    data
}

} // verus!
