use vstd::prelude::*;

verus! {

/// No identifier occurs twice in `s`.
pub open spec fn distinct(s: Seq<Seq<char>>) -> bool {
    forall|i: int, j: int| 0 <= i < j < s.len() ==> s[i] != s[j]
}

/// Index of the first element of `s[0..n]` that equals an earlier one.
pub open spec fn first_repeat(s: Seq<Seq<char>>, n: int) -> Option<int>
    decreases n,
{
    if n <= 0 {
        None
    } else {
        match first_repeat(s, n - 1) {
            Some(j) => Some(j),
            None => if s.take(n - 1).contains(s[n - 1]) {
                Some(n - 1)
            } else {
                None
            },
        }
    }
}

/// Once a prefix holds a repeat, every longer prefix reports that same one.
pub proof fn lemma_first_repeat_stable(s: Seq<Seq<char>>, i: int, n: int)
    requires
        0 <= i <= n,
        first_repeat(s, i) is Some,
    ensures
        first_repeat(s, n) == first_repeat(s, i),
    decreases n - i,
{
    if i < n {
        lemma_first_repeat_stable(s, i, n - 1);
    }
}

/// A prefix has no repeat exactly when its elements are distinct.
pub proof fn lemma_first_repeat_none(s: Seq<Seq<char>>, n: int)
    requires
        0 <= n <= s.len(),
    ensures
        first_repeat(s, n) is None <==> distinct(s.take(n)),
    decreases n,
{
    if n > 0 {
        lemma_first_repeat_none(s, n - 1);
        let p = s.take(n - 1);
        let q = s.take(n);
        assert(q =~= p.push(s[n - 1]));
        if distinct(q) {
            assert(distinct(p)) by {
                assert forall|i: int, j: int| 0 <= i < j < p.len() implies p[i] != p[j] by {
                    assert(p[i] == q[i] && p[j] == q[j]);
                }
            }
            if p.contains(s[n - 1]) {
                let k = choose|k: int| 0 <= k < p.len() && p[k] == s[n - 1];
                assert(q[k] == q[n - 1]);
            }
        }
        if first_repeat(s, n) is None {
            assert forall|i: int, j: int| 0 <= i < j < q.len() implies q[i] != q[j] by {
                if j < n - 1 {
                    assert(p[i] == q[i] && p[j] == q[j]);
                } else {
                    assert(p[i] == q[i]);
                    if q[i] == q[j] {
                        assert(p.contains(s[n - 1]));
                    }
                }
            }
        }
    }
}

/// The identifiers met so far within one scope.
pub struct SeenIds {
    ids: Vec<String>,
}

impl View for SeenIds {
    type V = Seq<Seq<char>>;

    closed spec fn view(&self) -> Seq<Seq<char>> {
        self.ids@.map_values(|s: String| s@)
    }
}

impl SeenIds {
    pub fn new() -> (r: SeenIds)
        ensures
            r@ == Seq::<Seq<char>>::empty(),
    {
        let r = SeenIds { ids: Vec::new() };
        assert(r@ =~= Seq::<Seq<char>>::empty());
        r
    }

    /// Records `id`; returns false, leaving the set as it was, when it was
    /// already there.
    pub fn insert(&mut self, id: &String) -> (r: bool)
        ensures
            r == !old(self)@.contains(id@),
            final(self)@ == if r {
                old(self)@.push(id@)
            } else {
                old(self)@
            },
    {
        let mut k: usize = 0;
        while k < self.ids.len()
            invariant
                k <= self.ids.len(),
                forall|i: int| 0 <= i < k ==> self@[i] != id@,
            decreases self.ids.len() - k,
        {
            if self.ids[k] == *id {
                assert(self@[k as int] == id@);
                return false;
            }
            k = k + 1;
        }
        assert(!self@.contains(id@));
        let ghost before = self@;
        self.ids.push(id.clone());
        assert(self@ =~= before.push(id@));
        true
    }
}

} // verus!
