use vstd::prelude::*;
use std::marker::PhantomData;

verus! {

/// The index of the first element of `s` equal to `x`, if any.
pub open spec fn index_of<A>(s: Seq<A>, x: A) -> Option<int> {
    if s.contains(x) {
        Some(choose|i: int| 0 <= i < s.len() && s[i] == x && forall|k: int| 0 <= k < i ==> s[k] != x)
    } else {
        None
    }
}

/// `s` without the element at `i`, whose place the last element takes.
pub open spec fn swap_remove_at<A>(s: Seq<A>, i: int) -> Seq<A> {
    s.update(i, s.last()).drop_last()
}

/// Finds the first occurrence of `x` in `v`.
fn find_fn(v: &Vec<usize>, x: usize) -> (r: Option<usize>)
    ensures
        r matches Some(i) ==> index_of(v@, x) == Some(i as int) && i < v@.len() && v@[i as int] == x,
        r is None ==> index_of(v@, x) is None && !v@.contains(x),
{
    let mut i: usize = 0;
    while i < v.len()
        invariant
            i <= v.len(),
            forall|k: int| 0 <= k < i ==> v@[k] != x,
        decreases v.len() - i,
    {
        if v[i] == x {
            proof {
                let c = choose|c: int| 0 <= c < v@.len() && v@[c] == x && forall|k: int| 0 <= k < c ==> v@[k] != x;
                assert(v@.contains(x));
                if c < i {
                } else if c > i {
                }
                assert(c == i);
            }
            return Some(i);
        }
        i = i + 1;
    }
    None
}

/// Finds the first occurrence of `x` in `v`.
fn find_method(v: &Vec<(usize, usize)>, x: (usize, usize)) -> (r: Option<usize>)
    ensures
        r matches Some(i) ==> index_of(v@, x) == Some(i as int) && i < v@.len() && v@[i as int] == x,
        r is None ==> index_of(v@, x) is None && !v@.contains(x),
{
    let mut i: usize = 0;
    while i < v.len()
        invariant
            i <= v.len(),
            forall|k: int| 0 <= k < i ==> v@[k] != x,
        decreases v.len() - i,
    {
        if v[i].0 == x.0 && v[i].1 == x.1 {
            proof {
                let c = choose|c: int| 0 <= c < v@.len() && v@[c] == x && forall|k: int| 0 <= k < c ==> v@[k] != x;
                assert(v@.contains(x));
                if c < i {
                } else if c > i {
                }
                assert(c == i);
            }
            return Some(i);
        }
        i = i + 1;
    }
    None
}

/// One call that posting an event makes: a subscribed function, by its code address, or a
/// subscribed method, by its object and code addresses.
#[derive(Clone, Copy, Debug, PartialEq, Eq, Structural)]
pub enum Delivery {
    Call(usize),
    CallMethod(usize, usize),
}

/// The calls that posting an event makes, in order: each subscribed function in `fns`, then each
/// subscribed method in `methods`.
pub open spec fn deliveries_of(fns: Seq<usize>, methods: Seq<(usize, usize)>) -> Seq<Delivery> {
    fns.map_values(|f: usize| Delivery::Call(f)) + methods.map_values(
        |m: (usize, usize)| Delivery::CallMethod(m.0, m.1),
    )
}

/// A kind of event that a `Dispatcher` hands to its subscribers.
pub trait Event {
}

/// The subscribers of an event: plain functions and methods on objects, each known by the
/// address of its code (and of its object).
pub struct Dispatcher<T: Event> {
    subbed_fns: Vec<usize>,
    subbed_methods: Vec<(usize, usize)>,  // slf_addr, fn_addr
    event: PhantomData<T>,
}

impl<T: Event> Dispatcher<T> {
    /// The subscribed functions, in the order they are called.
    pub closed spec fn fns(&self) -> Seq<usize> {
        self.subbed_fns@
    }

    /// The subscribed methods as `(object address, code address)`, in the order they are called.
    pub closed spec fn methods(&self) -> Seq<(usize, usize)> {
        self.subbed_methods@
    }

    pub fn new() -> (r: Self)
        ensures
            r.fns() == Seq::<usize>::empty(),
            r.methods() == Seq::<(usize, usize)>::empty(),
    {
        Self { subbed_fns: Vec::new(), subbed_methods: Vec::new(), event: PhantomData }
    }

    /// Subscribes the function at `f`, which is not subscribed yet.
    pub fn sub(&mut self, f: usize)
        requires
            !old(self).fns().contains(f),
        ensures
            final(self).fns() == old(self).fns().push(f),
            final(self).methods() == old(self).methods(),
    {
        self.subbed_fns.push(f);
    }

    /// Unsubscribes the function at `f`, which is subscribed.
    pub fn unsub(&mut self, f: usize)
        requires
            old(self).fns().contains(f),
        ensures
            final(self).fns() == swap_remove_at(old(self).fns(), index_of(old(self).fns(), f)->0),
            final(self).methods() == old(self).methods(),
    {
        let sub_idx = find_fn(&self.subbed_fns, f);
        match sub_idx {
            Some(i) => {
                self.subbed_fns.swap_remove(i);
            },
            None => {},
        }
    }

    /// Subscribes the method at `f` on the object at `slf`, which is not subscribed yet.
    pub fn sub_method(&mut self, slf: usize, f: usize)
        requires
            !old(self).methods().contains((slf, f)),
        ensures
            final(self).methods() == old(self).methods().push((slf, f)),
            final(self).fns() == old(self).fns(),
    {
        self.subbed_methods.push((slf, f));
    }

    /// Subscribes the mutating method at `f` on the object at `slf`, which is not subscribed yet.
    pub fn sub_method_mut(&mut self, slf: usize, f: usize)
        requires
            !old(self).methods().contains((slf, f)),
        ensures
            final(self).methods() == old(self).methods().push((slf, f)),
            final(self).fns() == old(self).fns(),
    {
        self.subbed_methods.push((slf, f));
    }

    /// Unsubscribes the method at `f` on the object at `slf`, which is subscribed.
    pub fn unsub_method(&mut self, slf: usize, f: usize)
        requires
            old(self).methods().contains((slf, f)),
        ensures
            final(self).methods() == swap_remove_at(old(self).methods(), index_of(old(self).methods(), (slf, f))->0),
            final(self).fns() == old(self).fns(),
    {
        let sub_idx = find_method(&self.subbed_methods, (slf, f));
        match sub_idx {
            Some(i) => {
                self.subbed_methods.swap_remove(i);
            },
            None => {},
        }
    }
    /// The calls that posting an event makes, in the order it makes them: every subscribed
    /// function, then every subscribed method.
    pub fn post_order(&self) -> (r: Vec<Delivery>)
        ensures
            r@ == deliveries_of(self.fns(), self.methods()),
    {
        let mut r: Vec<Delivery> = Vec::new();
        let mut i: usize = 0;
        while i < self.subbed_fns.len()
            invariant
                i <= self.subbed_fns.len(),
                r@ == self.subbed_fns@.take(i as int).map_values(|f: usize| Delivery::Call(f)),
            decreases self.subbed_fns.len() - i,
        {
            r.push(Delivery::Call(self.subbed_fns[i]));
            i = i + 1;
            assert(self.subbed_fns@.take(i as int) == self.subbed_fns@.take(i - 1).push(self.subbed_fns@[i - 1]));
        }
        let ghost calls = r@;
        assert(self.subbed_fns@.take(i as int) == self.subbed_fns@);
        let mut j: usize = 0;
        while j < self.subbed_methods.len()
            invariant
                j <= self.subbed_methods.len(),
                calls == self.subbed_fns@.map_values(|f: usize| Delivery::Call(f)),
                r@ == calls + self.subbed_methods@.take(j as int).map_values(
                    |m: (usize, usize)| Delivery::CallMethod(m.0, m.1),
                ),
            decreases self.subbed_methods.len() - j,
        {
            let (slf, f) = self.subbed_methods[j];
            r.push(Delivery::CallMethod(slf, f));
            j = j + 1;
            assert(self.subbed_methods@.take(j as int) == self.subbed_methods@.take(j - 1).push(self.subbed_methods@[j - 1]));
        }
        assert(self.subbed_methods@.take(j as int) == self.subbed_methods@);
        r
    }
}

/// Subscribing a function that is not subscribed makes posting call it exactly once, right after
/// the functions subscribed before it and before every method.
pub proof fn lemma_sub_delivers_once(fns: Seq<usize>, methods: Seq<(usize, usize)>, f: usize)
    requires
        !fns.contains(f),
    ensures
        deliveries_of(fns.push(f), methods) == deliveries_of(fns, Seq::empty()).push(Delivery::Call(f))
            + deliveries_of(Seq::empty(), methods),
        forall|k: int|
            0 <= k < deliveries_of(fns.push(f), methods).len() ==> (#[trigger] deliveries_of(fns.push(f), methods)[k]
                == Delivery::Call(f) <==> k == fns.len()),
{
    let d = deliveries_of(fns.push(f), methods);
    assert(d =~= deliveries_of(fns, Seq::empty()).push(Delivery::Call(f)) + deliveries_of(Seq::empty(), methods));
    assert forall|k: int| 0 <= k < d.len() implies (#[trigger] d[k] == Delivery::Call(f) <==> k == fns.len()) by {
        if k < fns.len() {
            assert(d[k] == Delivery::Call(fns[k]));
            if d[k] == Delivery::Call(f) {
                assert(fns.contains(f));
            }
        }
    }
}

/// Subscribing a method that is not subscribed makes posting call it exactly once, after every
/// function and every method subscribed before it.
pub proof fn lemma_sub_method_delivers_once(
    fns: Seq<usize>,
    methods: Seq<(usize, usize)>,
    slf: usize,
    f: usize,
)
    requires
        !methods.contains((slf, f)),
    ensures
        deliveries_of(fns, methods.push((slf, f))) == deliveries_of(fns, methods).push(
            Delivery::CallMethod(slf, f),
        ),
        forall|k: int|
            0 <= k < deliveries_of(fns, methods.push((slf, f))).len() ==> (
            #[trigger] deliveries_of(fns, methods.push((slf, f)))[k] == Delivery::CallMethod(slf, f) <==> k
                == fns.len() + methods.len()),
{
    let d = deliveries_of(fns, methods.push((slf, f)));
    assert(d =~= deliveries_of(fns, methods).push(Delivery::CallMethod(slf, f)));
    assert forall|k: int| 0 <= k < d.len() implies (#[trigger] d[k] == Delivery::CallMethod(slf, f) <==> k
        == fns.len() + methods.len()) by {
        if fns.len() <= k < fns.len() + methods.len() {
            let m = methods[k - fns.len()];
            assert(d[k] == Delivery::CallMethod(m.0, m.1));
            if d[k] == Delivery::CallMethod(slf, f) {
                assert(methods[k - fns.len()] == (slf, f));
                assert(methods.contains((slf, f)));
            }
        }
    }
}

} // verus!
