use vstd::prelude::*;

verus! {

/// True when the two sequences share at least one value.
pub open spec fn overlaps(a: Seq<u64>, b: Seq<u64>) -> bool {
    exists|v: u64| a.contains(v) && b.contains(v)
}

/// `s` with every value of `other` taken out, order kept.
pub open spec fn without(s: Seq<u64>, other: Seq<u64>) -> Seq<u64> {
    s.filter(|v: u64| !other.contains(v))
}

/// `s` followed by the values of `other` that `s` lacks, in the order of `other`.
pub open spec fn union_with(s: Seq<u64>, other: Seq<u64>) -> Seq<u64> {
    s + other.filter(|v: u64| !s.contains(v))
}

/// Filtering keeps a sequence free of repeats.
pub proof fn lemma_filter_no_duplicates(s: Seq<u64>, p: spec_fn(u64) -> bool)
    requires
        s.no_duplicates(),
    ensures
        s.filter(p).no_duplicates(),
        forall|v: u64| s.filter(p).contains(v) <==> (s.contains(v) && p(v)),
    decreases s.len(),
{
    reveal(Seq::filter);
    broadcast use Seq::lemma_filter_contains_rev, Seq::lemma_filter_pred, Seq::lemma_filter_contains;
    if s.len() > 0 {
        let d = s.drop_last();
        assert(d.no_duplicates());
        lemma_filter_no_duplicates(d, p);
        assert forall|v: u64| s.contains(v) implies d.contains(v) || v == s.last() by {
            let j = choose|j: int| 0 <= j < s.len() && s[j] == v;
            if j < s.len() - 1 {
                assert(d[j] == v);
            }
        }
        assert(!d.contains(s.last()));
        assert forall|v: u64| s.filter(p).contains(v) <==> (s.contains(v) && p(v)) by {
            if s.contains(v) && p(v) {
                let j = choose|j: int| 0 <= j < s.len() && s[j] == v;
                s.lemma_filter_contains(p, j);
            }
            if s.filter(p).contains(v) {
                let j = choose|j: int| 0 <= j < s.filter(p).len() && s.filter(p)[j] == v;
                s.lemma_filter_pred(p, j);
                s.lemma_filter_contains_rev(p, v);
            }
        }
    }
}

/// Filtering by a test that every element passes changes nothing.
pub proof fn lemma_filter_all(s: Seq<u64>, p: spec_fn(u64) -> bool)
    requires
        forall|v: u64| #[trigger] p(v),
    ensures
        s.filter(p) == s,
    decreases s.len(),
{
    reveal(Seq::filter);
    if s.len() > 0 {
        lemma_filter_all(s.drop_last(), p);
        assert(s.drop_last().push(s.last()) =~= s);
    }
}

/// A filter that keeps the length keeps everything.
pub proof fn lemma_filter_same_len(s: Seq<u64>, p: spec_fn(u64) -> bool)
    requires
        s.filter(p).len() == s.len(),
    ensures
        s.filter(p) == s,
    decreases s.len(),
{
    reveal(Seq::filter);
    if s.len() > 0 {
        s.drop_last().lemma_filter_len(p);
        if p(s.last()) {
            lemma_filter_same_len(s.drop_last(), p);
            assert(s.drop_last().push(s.last()) =~= s);
        }
    }
}

/// Filtering twice is filtering once by both tests.
pub proof fn lemma_filter_filter(s: Seq<u64>, p: spec_fn(u64) -> bool, q: spec_fn(u64) -> bool)
    ensures
        s.filter(p).filter(q) == s.filter(|v: u64| p(v) && q(v)),
    decreases s.len(),
{
    reveal(Seq::filter);
    if s.len() > 0 {
        lemma_filter_filter(s.drop_last(), p, q);
        let sp = s.drop_last().filter(p);
        if p(s.last()) {
            assert(s.filter(p).drop_last() =~= sp);
        }
    }
}

/// The union holds exactly what either side holds.
pub proof fn lemma_union_contains(a: Seq<u64>, b: Seq<u64>)
    requires
        b.no_duplicates(),
    ensures
        forall|v: u64| #[trigger] union_with(a, b).contains(v) <==> (a.contains(v) || b.contains(v)),
{
    let p = |v: u64| !a.contains(v);
    let f = b.filter(p);
    lemma_filter_no_duplicates(b, p);
    assert forall|v: u64| #[trigger] union_with(a, b).contains(v) <==> (a.contains(v) || b.contains(v)) by {
        let u = a + f;
        if u.contains(v) {
            let j = choose|j: int| 0 <= j < u.len() && #[trigger] u[j] == v;
            if j < a.len() {
                assert(a[j] == v);
            } else {
                assert(f[j - a.len()] == v);
            }
        }
        if a.contains(v) {
            let j = choose|j: int| 0 <= j < a.len() && #[trigger] a[j] == v;
            assert(u[j] == v);
        } else if b.contains(v) {
            assert(f.contains(v));
            let j = choose|j: int| 0 <= j < f.len() && #[trigger] f[j] == v;
            assert(u[a.len() + j] == v);
        }
    }
}

/// What a sequence holds after a push.
pub proof fn lemma_push_contains(t: Seq<u64>, v: u64)
    ensures
        forall|w: u64| t.push(v).contains(w) <==> (t.contains(w) || w == v),
{
    assert forall|w: u64| t.push(v).contains(w) <==> (t.contains(w) || w == v) by {
        if t.push(v).contains(w) {
            let j = choose|j: int| 0 <= j < t.push(v).len() && #[trigger] t.push(v)[j] == w;
            if j < t.len() {
                assert(t[j] == w);
            }
        }
        if t.contains(w) {
            let j = choose|j: int| 0 <= j < t.len() && #[trigger] t[j] == w;
            assert(t.push(v)[j] == w);
        }
        assert(t.push(v)[t.len() as int] == v);
    }
}

/// What a sequence of coordinates holds after a push.
pub proof fn lemma_push_contains_coord(t: Seq<(isize, isize, isize)>, v: (isize, isize, isize))
    ensures
        forall|w: (isize, isize, isize)| t.push(v).contains(w) <==> (t.contains(w) || w == v),
        !t.contains(v) ==> t.no_duplicates() ==> t.push(v).no_duplicates(),
{
    assert forall|w: (isize, isize, isize)| t.push(v).contains(w) <==> (t.contains(w) || w == v) by {
        if t.push(v).contains(w) {
            let j = choose|j: int| 0 <= j < t.push(v).len() && #[trigger] t.push(v)[j] == w;
            if j < t.len() {
                assert(t[j] == w);
            }
        }
        if t.contains(w) {
            let j = choose|j: int| 0 <= j < t.len() && #[trigger] t[j] == w;
            assert(t.push(v)[j] == w);
        }
        assert(t.push(v)[t.len() as int] == v);
    }
    if !t.contains(v) && t.no_duplicates() {
        assert forall|a: int, b: int| 0 <= a < b < t.push(v).len() implies t.push(v)[a] != t.push(v)[b] by {
            if b == t.len() {
                assert(t.contains(t[a]));
            }
        }
    }
}

/// One more element of the prefix either joins the filtered prefix or not.
pub proof fn lemma_filter_step(s: Seq<u64>, p: spec_fn(u64) -> bool, i: int)
    requires
        0 <= i < s.len(),
    ensures
        s.take(i + 1).filter(p) == (if p(s[i]) {
            s.take(i).filter(p).push(s[i])
        } else {
            s.take(i).filter(p)
        }),
{
    reveal(Seq::filter);
    assert(s.take(i + 1).drop_last() =~= s.take(i));
    assert(s.take(i + 1).last() == s[i]);
}

/// The candidate tile values of one cell, in insertion order and without repeats.
pub struct SetState {
    vals: Vec<u64>,
}

impl View for SetState {
    type V = Seq<u64>;

    closed spec fn view(&self) -> Seq<u64> {
        self.vals@
    }
}

impl Clone for SetState {
    fn clone(&self) -> (r: Self)
        ensures
            r@ == self@,
    {
        let vals = self.vals.clone();
        assert(vals@ =~= self.vals@);
        SetState { vals }
    }
}

impl SetState {
    /// No value is held twice.
    pub open spec fn wf(&self) -> bool {
        self@.no_duplicates()
    }

    /// A set with exactly one value.
    pub open spec fn is_final_spec(&self) -> bool {
        self@.len() == 1
    }

    /// The empty set: a contradiction.
    pub fn new() -> (r: Self)
        ensures
            r@ == Seq::<u64>::empty(),
            r.wf(),
    {
        SetState { vals: Vec::new() }
    }

    /// The set that holds `value` alone.
    pub fn new_final(value: u64) -> (r: Self)
        ensures
            r@ == seq![value],
            r.wf(),
    {
        let mut vals: Vec<u64> = Vec::new();
        vals.push(value);
        SetState { vals }
    }

    /// Number of candidate values.
    pub fn len(&self) -> (r: usize)
        ensures
            r == self@.len(),
    {
        self.vals.len()
    }

    /// The candidate values, in order.
    pub fn values(&self) -> (r: &Vec<u64>)
        ensures
            r@ == self@,
    {
        &self.vals
    }

    /// Whether `value` is still a candidate.
    pub fn contains(&self, value: u64) -> (r: bool)
        ensures
            r == self@.contains(value),
    {
        let mut i: usize = 0;
        while i < self.vals.len()
            invariant
                0 <= i <= self.vals@.len(),
                forall|j: int| 0 <= j < i ==> self.vals@[j] != value,
            decreases self.vals@.len() - i,
        {
            if self.vals[i] == value {
                return true;
            }
            i += 1;
        }
        false
    }

    /// Adds `value` unless it is already a candidate.
    pub fn insert(&mut self, value: u64)
        requires
            old(self).wf(),
        ensures
            final(self).wf(),
            final(self)@ == (if old(self)@.contains(value) {
                old(self)@
            } else {
                old(self)@.push(value)
            }),
    {
        if !self.contains(value) {
            self.vals.push(value);
        }
    }

    /// The single value of a final set, `None` for any other set.
    pub fn get(&self) -> (r: Option<u64>)
        ensures
            r == (if self@.len() == 1 { Some(self@[0]) } else { None::<u64> }),
    {
        if self.vals.len() == 1 {
            Some(self.vals[0])
        } else {
            None
        }
    }

    /// Whether exactly one candidate is left.
    pub fn is_final(&self) -> (r: bool)
        ensures
            r == self.is_final_spec(),
    {
        self.vals.len() == 1
    }

    /// Appends to `out` one final set for each candidate value, in order.
    pub fn collect_final_states(&self, out: &mut Vec<SetState>)
        ensures
            final(out)@.len() == old(out)@.len() + self@.len(),
            forall|j: int| 0 <= j < old(out)@.len() ==> final(out)@[j] == old(out)@[j],
            forall|j: int|
                0 <= j < self@.len() ==> (#[trigger] final(out)@[old(out)@.len() + j])@
                    == seq![self@[j]] && final(out)@[old(out)@.len() + j].wf(),
    {
        let ghost start = out@.len();
        let mut i: usize = 0;
        while i < self.vals.len()
            invariant
                0 <= i <= self.vals@.len(),
                start == old(out)@.len(),
                out@.len() == start + i,
                forall|j: int| 0 <= j < start ==> out@[j] == old(out)@[j],
                forall|j: int|
                    0 <= j < i ==> (#[trigger] out@[start + j])@ == seq![self@[j]] && out@[start
                        + j].wf(),
            decreases self.vals@.len() - i,
        {
            out.push(SetState::new_final(self.vals[i]));
            i += 1;
        }
    }

    /// Whether the two sets share a value.
    pub fn has_any_of(&self, other: &SetState) -> (r: bool)
        ensures
            r == overlaps(self@, other@),
    {
        let mut i: usize = 0;
        while i < self.vals.len()
            invariant
                0 <= i <= self.vals@.len(),
                forall|j: int| 0 <= j < i ==> !other@.contains(#[trigger] self.vals@[j]),
            decreases self.vals@.len() - i,
        {
            if other.contains(self.vals[i]) {
                assert(self@.contains(self.vals@[i as int]));
                return true;
            }
            i += 1;
        }
        assert forall|v: u64| self@.contains(v) implies !other@.contains(v) by {
            let j = choose|j: int| 0 <= j < self@.len() && self@[j] == v;
            assert(!other@.contains(self.vals@[j]));
        }
        false
    }

    /// Removes every value that `other` holds.
    pub fn clear_states(&mut self, other: &SetState)
        requires
            old(self).wf(),
        ensures
            final(self).wf(),
            final(self)@ == without(old(self)@, other@),
    {
        let ghost p = |v: u64| !other@.contains(v);
        let ghost s = old(self)@;
        let mut kept: Vec<u64> = Vec::new();
        let mut i: usize = 0;
        while i < self.vals.len()
            invariant
                0 <= i <= s.len(),
                self@ == s,
                kept@ == s.take(i as int).filter(p),
                p == (|v: u64| !other@.contains(v)),
            decreases s.len() - i,
        {
            let v = self.vals[i];
            proof {
                lemma_filter_step(s, p, i as int);
            }
            if !other.contains(v) {
                kept.push(v);
            }
            i += 1;
        }
        proof {
            assert(s.take(s.len() as int) =~= s);
            lemma_filter_no_duplicates(s, p);
        }
        self.vals = kept;
    }

    /// Removes `value` if it is a candidate.
    pub fn remove(&mut self, value: u64)
        requires
            old(self).wf(),
        ensures
            final(self).wf(),
            final(self)@ == old(self)@.filter(|v: u64| v != value),
    {
        let ghost p = |v: u64| v != value;
        let ghost s = old(self)@;
        let mut kept: Vec<u64> = Vec::new();
        let mut i: usize = 0;
        while i < self.vals.len()
            invariant
                0 <= i <= s.len(),
                self@ == s,
                kept@ == s.take(i as int).filter(p),
                p == (|v: u64| v != value),
            decreases s.len() - i,
        {
            let v = self.vals[i];
            proof {
                lemma_filter_step(s, p, i as int);
            }
            if v != value {
                kept.push(v);
            }
            i += 1;
        }
        proof {
            assert(s.take(s.len() as int) =~= s);
            lemma_filter_no_duplicates(s, p);
        }
        self.vals = kept;
    }

    /// Adds every value of `other` that is not yet a candidate.
    pub fn set_states(&mut self, other: &SetState)
        requires
            old(self).wf(),
            other.wf(),
        ensures
            final(self).wf(),
            final(self)@ == union_with(old(self)@, other@),
    {
        let ghost s = old(self)@;
        let ghost p = |v: u64| !s.contains(v);
        let mut i: usize = 0;
        while i < other.vals.len()
            invariant
                0 <= i <= other@.len(),
                other.wf(),
                s.no_duplicates(),
                p == (|v: u64| !s.contains(v)),
                self@ == s + other@.take(i as int).filter(p),
                self@.no_duplicates(),
                forall|w: u64| #[trigger] self@.contains(w) <==> (s.contains(w) || other@.take(i as int).contains(w)),
            decreases other@.len() - i,
        {
            let v = other.vals[i];
            let ghost before = self@;
            proof {
                lemma_filter_step(other@, p, i as int);
                assert(other@.take(i + 1) =~= other@.take(i as int).push(v));
                lemma_push_contains(other@.take(i as int), v);
                assert(!other@.take(i as int).contains(v)) by {
                    if other@.take(i as int).contains(v) {
                        let j = choose|j: int| 0 <= j < i && #[trigger] other@.take(i as int)[j] == v;
                        assert(other@[j] == other@[i as int]);
                    }
                }
            }
            if !self.contains(v) {
                self.vals.push(v);
                proof {
                    lemma_push_contains(before, v);
                    assert forall|a: int, b: int| 0 <= a < b < self@.len() implies self@[a] != self@[b] by {
                        if b == self@.len() - 1 {
                            assert(before.contains(before[a]));
                        }
                    }
                    assert(self@ =~= s + other@.take(i + 1).filter(p));
                }
            } else {
                assert(self@ =~= s + other@.take(i + 1).filter(p));
            }
            assert forall|w: u64| #[trigger] self@.contains(w) <==> (s.contains(w) || other@.take(i + 1).contains(w)) by {
                assert(before.contains(w) <==> (s.contains(w) || other@.take(i as int).contains(w)));
                assert(other@.take(i + 1).contains(w) <==> (other@.take(i as int).contains(w) || w == v));
                if self@ == before {
                    assert(before.contains(v));
                } else {
                    assert(self@ == before.push(v));
                    assert(self@.contains(w) <==> (before.contains(w) || w == v));
                }
            }
            i += 1;
        }
        assert(other@.take(other@.len() as int) =~= other@);
    }
}

} // verus!
