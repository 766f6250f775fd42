//! Grouping training examples into batches of a fixed size.
use vstd::prelude::*;

verus! {

/// Splits training examples into batches.
pub struct BatchTrainer {
    pub batch_size: usize,
}

/// The effective size of a batch: a size of 0 gives batches of one.
pub open spec fn effective_size(batch_size: usize) -> nat {
    if batch_size == 0 {
        1
    } else {
        batch_size as nat
    }
}

pub open spec fn batch_views<T>(v: Seq<Vec<T>>) -> Seq<Seq<T>> {
    v.map_values(|b: Vec<T>| b@)
}

impl BatchTrainer {
    pub fn new(batch_size: usize) -> (r: Self)
        ensures
            r.batch_size == batch_size,
    {
        BatchTrainer { batch_size }
    }

    /// The items in order, cut into batches of `batch_size`; the last batch
    /// holds what is left and is never empty.
    pub fn make_batches<T>(&self, items: Vec<T>) -> (r: Vec<Vec<T>>)
        ensures
            batch_views(r@).flatten() == items@,
            forall|k: int| 0 <= k < r@.len() - 1 ==> (#[trigger] r@[k])@.len() == effective_size(
                self.batch_size,
            ),
            r@.len() > 0 ==> 0 < r@.last()@.len() <= effective_size(self.batch_size),
    {
        let ghost m = effective_size(self.batch_size);
        let mut rest = items;
        let mut batches: Vec<Vec<T>> = Vec::new();
        let mut current: Vec<T> = Vec::new();
        assert(batch_views(batches@).flatten() =~= Seq::<T>::empty());
        while rest.len() > 0
            invariant
                m == effective_size(self.batch_size),
                batch_views(batches@).flatten() + current@ + rest@ == items@,
                forall|k: int| 0 <= k < batches@.len() ==> (#[trigger] batches@[k])@.len() == m,
                current@.len() < m,
            decreases rest@.len(),
        {
            let ghost before = batch_views(batches@).flatten() + current@ + rest@;
            let x = rest.remove(0);
            current.push(x);
            assert(batch_views(batches@).flatten() + current@ + rest@ =~= before);
            if current.len() >= self.batch_size {
                let ghost b = batch_views(batches@);
                let ghost c = current@;
                batches.push(current);
                current = Vec::new();
                proof {
                    assert(batch_views(batches@) =~= b.push(c));
                    b.lemma_flatten_push(c);
                    assert(batch_views(batches@).flatten() + current@ + rest@ =~= b.flatten() + c
                        + rest@);
                }
            }
        }
        if current.len() > 0 {
            let ghost b = batch_views(batches@);
            let ghost c = current@;
            batches.push(current);
            proof {
                assert(batch_views(batches@) =~= b.push(c));
                b.lemma_flatten_push(c);
            }
        } else {
            assert(batch_views(batches@).flatten() + current@ + rest@ =~= batch_views(batches@).flatten());
        }
        batches
    }
}

} // verus!
