//! Flatten a sequence of results of collections.
//!
//! The main intended use is to take results that each carry a collection
//! of values — or no value at all — and walk the inner values one by one,
//! passing every error through in its place, without losing the values
//! that follow it.

use vstd::prelude::*;

verus! {

broadcast use vstd::seq_lib::group_seq_properties;

/// The flattening of gathered results of vectors: the values of each
/// successful result in order, each error kept in its place.
pub open spec fn flat_of_vecs<T, E>(s: Seq<Result<Vec<T>, E>>) -> Seq<Result<T, E>>
    decreases s.len(),
{
    if s.len() == 0 {
        Seq::empty()
    } else {
        flat_of_vecs(s.drop_last()) + (match s.last() {
            Ok(v) => v@.map_values(|t: T| Ok::<T, E>(t)),
            Err(e) => seq![Err::<T, E>(e)],
        })
    }
}

/// The flattening of gathered results of optional values: each present
/// value in order, each error kept in its place.
pub open spec fn flat_of_options<T, E>(s: Seq<Result<Option<T>, E>>) -> Seq<Result<T, E>>
    decreases s.len(),
{
    if s.len() == 0 {
        Seq::empty()
    } else {
        flat_of_options(s.drop_last()) + (match s.last() {
            Ok(Some(t)) => seq![Ok::<T, E>(t)],
            Ok(None) => Seq::empty(),
            Err(e) => seq![Err::<T, E>(e)],
        })
    }
}

/// What collecting a run of flattened items yields: the values in order,
/// or the first error.
pub open spec fn collected<T, E>(s: Seq<Result<T, E>>) -> Result<Seq<T>, E>
    decreases s.len(),
{
    if s.len() == 0 {
        Ok(Seq::empty())
    } else {
        match s[0] {
            Err(e) => Err(e),
            Ok(t) => match collected(s.drop_first()) {
                Ok(rest) => Ok(seq![t] + rest),
                Err(e) => Err(e),
            },
        }
    }
}

/// Values already gathered, placed before the outcome of collecting the
/// remaining items.
pub open spec fn collected_after<T, E>(acc: Seq<T>, r: Result<Seq<T>, E>) -> Result<Seq<T>, E> {
    match r {
        Ok(rest) => Ok(acc + rest),
        Err(e) => Err(e),
    }
}

/// An implementation of [`TryFlatten::try_flatten`]: a cursor over the
/// flattened items.
pub struct TryFlattenImpl<T, E> {
    /// The flattened items not yet handed out, first to last.
    items: Vec<Result<T, E>>,
}

impl<T, E> View for TryFlattenImpl<T, E> {
    type V = Seq<Result<T, E>>;

    closed spec fn view(&self) -> Seq<Result<T, E>> {
        self.items@
    }
}

impl<T, E> TryFlattenImpl<T, E> {
    /// The next flattened item, or nothing once the items have run out.
    pub fn next(&mut self) -> (r: Option<Result<T, E>>)
        ensures
            old(self)@.len() == 0 ==> r is None && final(self)@ == old(self)@,
            old(self)@.len() > 0 ==> r == Some(old(self)@[0]) && final(self)@ == old(
                self,
            )@.drop_first(),
    {
        if self.items.len() == 0 {
            None
        } else {
            let ghost items0 = self.items@;
            let x = self.items.remove(0);
            proof {
                assert(self.items@ =~= items0.drop_first());
            }
            Some(x)
        }
    }

    /// The remaining values collected in order, or the first error.
    #[verifier::loop_isolation(false)]
    pub fn collect_all(self) -> (r: Result<Vec<T>, E>)
        ensures
            (match r {
                Ok(v) => collected(self@) == Ok::<Seq<T>, E>(v@),
                Err(e) => collected(self@) == Err::<Seq<T>, E>(e),
            }),
    {
        let ghost whole = self@;
        let mut cursor = self;
        let mut acc: Vec<T> = Vec::new();
        proof {
            match collected(whole) {
                Ok(r0) => {
                    assert(Seq::<T>::empty() + r0 =~= r0);
                },
                Err(_) => {},
            }
        }
        loop
            invariant
                collected(whole) == collected_after(acc@, collected(cursor@)),
            decreases cursor@.len(),
        {
            let ghost before = cursor@;
            match cursor.next() {
                None => {
                    proof {
                        assert(acc@ + Seq::<T>::empty() =~= acc@);
                    }
                    return Ok(acc);
                },
                Some(Ok(t)) => {
                    let ghost acc0 = acc@;
                    acc.push(t);
                    proof {
                        assert(before[0] == Ok::<T, E>(t));
                        match collected(before.drop_first()) {
                            Ok(rest) => {
                                assert(acc0 + (seq![t] + rest) =~= acc@ + rest);
                            },
                            Err(_) => {},
                        }
                    }
                },
                Some(Err(e)) => {
                    proof {
                        assert(before[0] == Err::<T, E>(e));
                        assert(collected(whole) == Err::<Seq<T>, E>(e));
                    }
                    return Err(e);
                },
            }
        }
    }
}

/// Flatten gathered results of collections into single fallible items.
pub trait TryFlatten<T, E>: Sized {
    /// The flattened items this value stands for.
    spec fn flat_view(&self) -> Seq<Result<T, E>>;

    /// Walk the flattened items: every value of a successful result, and
    /// every error in its place.
    fn try_flatten(self) -> (r: TryFlattenImpl<T, E>)
        ensures
            r@ == self.flat_view(),
    ;
}

impl<T, E> TryFlatten<T, E> for Vec<Result<Vec<T>, E>> {
    open spec fn flat_view(&self) -> Seq<Result<T, E>> {
        flat_of_vecs(self@)
    }

    fn try_flatten(self) -> (r: TryFlattenImpl<T, E>) {
        let ghost orig = self@;
        let mut s = self;
        let mut flat: Vec<Result<T, E>> = Vec::new();
        let ghost mut k: int = 0;
        while s.len() > 0
            invariant
                0 <= k,
                k + s@.len() == orig.len(),
                s@ == orig.skip(k),
                flat@ == flat_of_vecs(orig.take(k)),
            decreases s@.len(),
        {
            let item = s.remove(0);
            proof {
                assert(item == orig[k]);
                assert(s@ =~= orig.skip(k + 1));
                assert(orig.take(k + 1).drop_last() =~= orig.take(k));
                assert(orig.take(k + 1).last() == orig[k]);
            }
            let ghost pre = flat@;
            match item {
                Err(e) => {
                    flat.push(Err(e));
                    proof {
                        assert(flat@ =~= pre + seq![Err::<T, E>(e)]);
                    }
                },
                Ok(v) => {
                    let ghost inner = v@;
                    let mut v = v;
                    let ghost mut j: int = 0;
                    while v.len() > 0
                        invariant
                            0 <= j,
                            j + v@.len() == inner.len(),
                            v@ == inner.skip(j),
                            flat@ == pre + inner.take(j).map_values(|t: T| Ok::<T, E>(t)),
                        decreases v@.len(),
                    {
                        let t = v.remove(0);
                        flat.push(Ok(t));
                        proof {
                            assert(t == inner[j]);
                            assert(v@ =~= inner.skip(j + 1));
                            assert(flat@ =~= pre + inner.take(j + 1).map_values(
                                |t2: T| Ok::<T, E>(t2),
                            ));
                            j = j + 1;
                        }
                    }
                    proof {
                        assert(inner.take(inner.len() as int) =~= inner);
                        assert(flat@ == pre + inner.map_values(|t2: T| Ok::<T, E>(t2)));
                    }
                },
            }
            proof {
                k = k + 1;
            }
        }
        proof {
            assert(orig.take(orig.len() as int) =~= orig);
        }
        TryFlattenImpl { items: flat }
    }
}

impl<T, E> TryFlatten<T, E> for Vec<Result<Option<T>, E>> {
    open spec fn flat_view(&self) -> Seq<Result<T, E>> {
        flat_of_options(self@)
    }

    fn try_flatten(self) -> (r: TryFlattenImpl<T, E>) {
        let ghost orig = self@;
        let mut s = self;
        let mut flat: Vec<Result<T, E>> = Vec::new();
        let ghost mut k: int = 0;
        while s.len() > 0
            invariant
                0 <= k,
                k + s@.len() == orig.len(),
                s@ == orig.skip(k),
                flat@ == flat_of_options(orig.take(k)),
            decreases s@.len(),
        {
            let item = s.remove(0);
            proof {
                assert(item == orig[k]);
                assert(s@ =~= orig.skip(k + 1));
                assert(orig.take(k + 1).drop_last() =~= orig.take(k));
                assert(orig.take(k + 1).last() == orig[k]);
            }
            let ghost pre = flat@;
            match item {
                Err(e) => {
                    flat.push(Err(e));
                    proof {
                        assert(flat@ =~= pre + seq![Err::<T, E>(e)]);
                    }
                },
                Ok(Some(t)) => {
                    flat.push(Ok(t));
                    proof {
                        assert(flat@ =~= pre + seq![Ok::<T, E>(t)]);
                    }
                },
                Ok(None) => {
                    proof {
                        assert(flat@ =~= pre + Seq::<Result<T, E>>::empty());
                    }
                },
            }
            proof {
                k = k + 1;
            }
        }
        proof {
            assert(orig.take(orig.len() as int) =~= orig);
        }
        TryFlattenImpl { items: flat }
    }
}

} // verus!
