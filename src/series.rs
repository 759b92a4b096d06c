//! A fixed-capacity history of recent values, oldest first, used for charting.
use vstd::prelude::*;

verus! {

/// The contents after one push: the oldest value leaves once the series is full.
pub open spec fn pushed<T>(s: Seq<T>, cap: nat, v: T) -> Seq<T> {
    if s.len() >= cap {
        s.drop_first().push(v)
    } else {
        s.push(v)
    }
}

/// The contents after pushing each of `vs` in turn.
pub open spec fn pushed_all<T>(s: Seq<T>, cap: nat, vs: Seq<T>) -> Seq<T>
    decreases vs.len(),
{
    if vs.len() == 0 {
        s
    } else {
        pushed(pushed_all(s, cap, vs.drop_last()), cap, vs.last())
    }
}

/// The last `cap` values of `vs` (all of them if there are fewer), in order.
pub open spec fn last_n<T>(vs: Seq<T>, cap: nat) -> Seq<T> {
    if vs.len() > cap {
        vs.subrange(vs.len() - cap, vs.len() as int)
    } else {
        vs
    }
}

pub struct RollingSeries<T> {
    data: Vec<T>,
    capacity: usize,
}

impl<T> View for RollingSeries<T> {
    type V = Seq<T>;

    closed spec fn view(&self) -> Seq<T> {
        self.data@
    }
}

impl<T> RollingSeries<T> {
    /// A positive capacity that the contents never exceed.
    pub closed spec fn wf(&self) -> bool {
        self.capacity > 0 && self.data@.len() <= self.capacity
    }

    /// The number of values the series holds once full.
    pub closed spec fn cap(&self) -> nat {
        self.capacity as nat
    }

    /// An empty series that keeps up to `capacity` values.
    pub fn new(capacity: usize) -> (r: RollingSeries<T>)
        requires
            capacity > 0,
        ensures
            r.wf(),
            r@ == Seq::<T>::empty(),
            r.cap() == capacity,
    {
        RollingSeries { data: Vec::new(), capacity }
    }

    /// Appends `v`, first evicting the oldest value if the series is full.
    pub fn push(&mut self, v: T)
        requires
            old(self).wf(),
        ensures
            final(self).wf(),
            final(self)@ == pushed(old(self)@, old(self).cap(), v),
            final(self).cap() == old(self).cap(),
            final(self)@.len() <= final(self).cap(),
    {
        if self.data.len() >= self.capacity {
            self.data.remove(0);
        }
        self.data.push(v);
        proof {
            assert(old(self)@.len() >= old(self).cap() ==> old(self)@.remove(0) =~= old(self)@.drop_first());
        }
    }

    /// A full series of `capacity` copies of `v`.
    pub fn filled(capacity: usize, v: T) -> (r: RollingSeries<T>)
        where
            T: Copy,
        requires
            capacity > 0,
        ensures
            r.wf(),
            r@ == Seq::new(capacity as nat, |i: int| v),
            r.cap() == capacity,
    {
        let mut data: Vec<T> = Vec::new();
        let mut i: usize = 0;
        while i < capacity
            invariant
                i <= capacity,
                data@ =~= Seq::new(i as nat, |j: int| v),
            decreases capacity - i,
        {
            data.push(v);
            i = i + 1;
        }
        RollingSeries { data, capacity }
    }

    pub fn len(&self) -> (r: usize)
        requires
            self.wf(),
        ensures
            r == self@.len(),
            r <= self.cap(),
    {
        self.data.len()
    }

    pub fn capacity(&self) -> (r: usize)
        requires
            self.wf(),
        ensures
            r == self.cap(),
            r > 0,
    {
        self.capacity
    }

    /// The values, oldest first.
    pub fn values(&self) -> (r: &[T])
        ensures
            r@ == self@,
    {
        self.data.as_slice()
    }
}

/// Pushing values one after another into a series that holds `s` leaves the
/// last `cap` values of `s` followed by the pushed values, in order.
pub proof fn lemma_keeps_last_from<T>(s: Seq<T>, cap: nat, vs: Seq<T>)
    requires
        s.len() <= cap,
        cap > 0,
    ensures
        pushed_all(s, cap, vs) == last_n(s + vs, cap),
    decreases vs.len(),
{
    if vs.len() > 0 {
        let prev = vs.drop_last();
        lemma_keeps_last_from(s, cap, prev);
        assert((s + vs).drop_last() =~= s + prev);
        let whole = s + prev;
        if whole.len() >= cap {
            assert(last_n(whole, cap).drop_first().push(vs.last()) =~= last_n(s + vs, cap));
        } else {
            assert(whole.push(vs.last()) =~= s + vs);
        }
    } else {
        assert(s + vs =~= s);
    }
}

/// A full series stays full: after any pushes it holds exactly the last
/// `cap` values of its old contents followed by the pushed values; once
/// `cap` or more values were pushed, exactly the last `cap` pushed, in order.
pub proof fn lemma_full_keeps_last<T>(s: Seq<T>, cap: nat, vs: Seq<T>)
    requires
        s.len() == cap,
        cap > 0,
    ensures
        pushed_all(s, cap, vs).len() == cap,
        pushed_all(s, cap, vs) == (s + vs).subrange(vs.len() as int, (s + vs).len() as int),
        vs.len() >= cap ==> pushed_all(s, cap, vs) == vs.subrange(vs.len() - cap, vs.len() as int),
{
    lemma_keeps_last_from(s, cap, vs);
    if vs.len() > 0 {
        assert((s + vs).subrange(vs.len() as int, (s + vs).len() as int) =~= last_n(s + vs, cap));
    } else {
        assert(s + vs =~= s);
        assert(s.subrange(0, s.len() as int) =~= s);
    }
    if vs.len() >= cap {
        assert((s + vs).subrange(vs.len() as int, (s + vs).len() as int) =~= vs.subrange(vs.len() - cap, vs.len() as int));
    }
}

/// After any number of pushes into an empty series, it holds the last `cap`
/// values pushed (all of them while fewer were pushed), in push order; so
/// once `cap` or more were pushed its length is exactly `cap`.
pub proof fn lemma_keeps_last<T>(cap: nat, vs: Seq<T>)
    requires
        cap > 0,
    ensures
        pushed_all(Seq::<T>::empty(), cap, vs) == last_n(vs, cap),
        vs.len() >= cap ==> pushed_all(Seq::<T>::empty(), cap, vs).len() == cap,
    decreases vs.len(),
{
    if vs.len() > 0 {
        let prev = vs.drop_last();
        lemma_keeps_last(cap, prev);
        if prev.len() >= cap {
            assert(last_n(prev, cap).drop_first().push(vs.last()) =~= last_n(vs, cap));
        } else {
            assert(prev.push(vs.last()) =~= vs);
        }
    } else {
        assert(last_n(vs, cap) =~= vs);
    }
}

} // verus!
