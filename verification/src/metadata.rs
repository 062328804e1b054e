//! The string-to-string mapping carried by a lexis as historical
//! metadata. Keys are unique and keep their insertion order, so every
//! merge is deterministic.

use vstd::prelude::*;
use crate::text::str_eq;

verus! {

/// A key-value list of metadata entries.
pub open spec fn m_get(s: Seq<(Seq<char>, Seq<char>)>, k: Seq<char>) -> Option<Seq<char>>
    decreases s.len(),
{
    if s.len() == 0 {
        None
    } else if s[0].0 == k {
        Some(s[0].1)
    } else {
        m_get(s.skip(1), k)
    }
}

/// The list with `k` bound to `v`: an existing binding is overwritten in
/// place, a new one appended.
pub open spec fn m_insert(s: Seq<(Seq<char>, Seq<char>)>, k: Seq<char>, v: Seq<char>) -> Seq<
    (Seq<char>, Seq<char>),
>
    decreases s.len(),
{
    if s.len() == 0 {
        seq![(k, v)]
    } else if s[0].0 == k {
        seq![(k, v)] + s.skip(1)
    } else {
        seq![s[0]] + m_insert(s.skip(1), k, v)
    }
}

/// The list with every binding of `b` written into `a`, in order; on a
/// shared key `b` wins.
pub open spec fn m_extend(
    a: Seq<(Seq<char>, Seq<char>)>,
    b: Seq<(Seq<char>, Seq<char>)>,
) -> Seq<(Seq<char>, Seq<char>)>
    decreases b.len(),
{
    if b.len() == 0 {
        a
    } else {
        m_extend(m_insert(a, b[0].0, b[0].1), b.skip(1))
    }
}

/// No two entries share a key.
pub open spec fn m_unique(s: Seq<(Seq<char>, Seq<char>)>) -> bool {
    forall|i: int, j: int| 0 <= i < j < s.len() ==> (#[trigger] s[i]).0 != (#[trigger] s[j]).0
}

/// Two lists bind the same keys to the same values.
pub open spec fn m_equiv(a: Seq<(Seq<char>, Seq<char>)>, b: Seq<(Seq<char>, Seq<char>)>) -> bool {
    a.len() == b.len() && forall|i: int| 0 <= i < a.len() ==> m_get(b, (#[trigger] a[i]).0)
        == Some(a[i].1)
}

/// String-to-string metadata attached to a lexis, merged downward from
/// etymons to their descendants during computation.
#[derive(Debug)]
pub struct MetadataMap {
    entries: Vec<(String, String)>,
}

impl View for MetadataMap {
    type V = Seq<(Seq<char>, Seq<char>)>;

    closed spec fn view(&self) -> Seq<(Seq<char>, Seq<char>)> {
        self.entries.deep_view()
    }
}

impl MetadataMap {
    #[verifier::type_invariant]
    pub closed spec fn wf(&self) -> bool {
        m_unique(self@)
    }

    /// The empty mapping.
    pub fn new() -> (r: MetadataMap)
        ensures
            r@ == Seq::<(Seq<char>, Seq<char>)>::empty(),
    {
        let r = MetadataMap { entries: Vec::new() };
        proof {
            assert(r@ =~= Seq::<(Seq<char>, Seq<char>)>::empty());
        }
        r
    }

    /// Builds a mapping by inserting each pair in order; a later pair
    /// overwrites an earlier one with the same key.
    pub fn from_pairs(pairs: Vec<(String, String)>) -> (r: MetadataMap)
        ensures
            r@ == m_extend(Seq::<(Seq<char>, Seq<char>)>::empty(), pairs.deep_view()),
    {
        let ghost b = pairs.deep_view();
        let mut r = MetadataMap::new();
        let mut i: usize = 0;
        proof {
            assert(b.skip(0) =~= b);
        }
        while i < pairs.len()
            invariant
                b == pairs.deep_view(),
                b.len() == pairs.len(),
                0 <= i <= pairs.len(),
                m_extend(Seq::<(Seq<char>, Seq<char>)>::empty(), b) == m_extend(
                    r@,
                    b.skip(i as int),
                ),
            decreases pairs.len() - i,
        {
            proof {
                assert(b.skip(i as int)[0] == b[i as int]);
                assert(b.skip(i as int).skip(1) =~= b.skip(i as int + 1));
            }
            let k = pairs[i].0.clone();
            let v = pairs[i].1.clone();
            r.insert(k, v);
            i += 1;
        }
        proof {
            assert(b.skip(i as int) =~= Seq::<(Seq<char>, Seq<char>)>::empty());
        }
        r
    }

    /// The number of entries.
    pub fn len(&self) -> (r: usize)
        ensures
            r == self@.len(),
    {
        self.entries.len()
    }

    /// True when the mapping has no entries.
    pub fn is_empty(&self) -> (r: bool)
        ensures
            r == (self@.len() == 0),
    {
        self.entries.len() == 0
    }

    /// The value bound to `k`, if any.
    pub fn get(&self, k: &str) -> (r: Option<&String>)
        ensures
            match r {
                Some(v) => m_get(self@, k@) == Some(v@),
                None => m_get(self@, k@) is None,
            },
    {
        let ghost s = self@;
        let mut i: usize = 0;
        proof {
            assert(s.skip(0) =~= s);
        }
        while i < self.entries.len()
            invariant
                s == self@,
                s.len() == self.entries.len(),
                0 <= i <= self.entries.len(),
                m_get(s, k@) == m_get(s.skip(i as int), k@),
            decreases self.entries.len() - i,
        {
            proof {
                assert(s.skip(i as int)[0] == s[i as int]);
                assert(s.skip(i as int).skip(1) =~= s.skip(i as int + 1));
            }
            if str_eq(self.entries[i].0.as_str(), k) {
                return Some(&self.entries[i].1);
            }
            i += 1;
        }
        proof {
            assert(s.skip(i as int) =~= Seq::<(Seq<char>, Seq<char>)>::empty());
        }
        None
    }

    /// True when `k` is bound.
    pub fn contains_key(&self, k: &str) -> (r: bool)
        ensures
            r == (m_get(self@, k@) is Some),
    {
        match self.get(k) {
            Some(_) => true,
            None => false,
        }
    }

    /// Binds `k` to `v`, overwriting an existing binding in place.
    pub fn insert(&mut self, k: String, v: String)
        ensures
            final(self)@ == m_insert(old(self)@, k@, v@),
    {
        proof {
            use_type_invariant(&*self);
        }
        let ghost s = self@;
        let mut out: Vec<(String, String)> = Vec::new();
        let mut i: usize = 0;
        let mut replaced = false;
        proof {
            assert(s.skip(0) =~= s);
            assert(out.deep_view() =~= Seq::<(Seq<char>, Seq<char>)>::empty());
            assert(Seq::<(Seq<char>, Seq<char>)>::empty() + m_insert(s, k@, v@) =~= m_insert(
                s,
                k@,
                v@,
            ));
        }
        while i < self.entries.len()
            invariant
                s == self@,
                s.len() == self.entries.len(),
                m_unique(s),
                0 <= i <= self.entries.len(),
                !replaced ==> {
                    &&& out.deep_view().len() == i
                    &&& (forall|j: int| 0 <= j < i ==> out.deep_view()[j] == s[j])
                    &&& (forall|j: int| 0 <= j < i ==> (#[trigger] s[j]).0 != k@)
                    &&& m_insert(s, k@, v@) == out.deep_view() + m_insert(
                        s.skip(i as int),
                        k@,
                        v@,
                    )
                },
                replaced ==> out.deep_view() =~= m_insert(s, k@, v@).take(i as int)
                    && m_insert(s, k@, v@).len() == s.len() && i
                    <= m_insert(s, k@, v@).len(),
                replaced ==> exists|j0: int| 0 <= j0 < i && (#[trigger] s[j0]).0 == k@,
            decreases self.entries.len() - i,
        {
            proof {
                assert(s.skip(i as int)[0] == s[i as int]);
                assert(s.skip(i as int).skip(1) =~= s.skip(i as int + 1));
            }
            let ghost prev = out.deep_view();
            if !replaced && str_eq(self.entries[i].0.as_str(), k.as_str()) {
                out.push((k.clone(), v.clone()));
                replaced = true;
                proof {
                    assert(out.deep_view() =~= prev.push((k@, v@)));
                    assert(m_insert(s.skip(i as int), k@, v@) =~= seq![(k@, v@)] + s.skip(
                        i as int + 1,
                    ));
                    assert(m_insert(s, k@, v@) =~= prev + (seq![(k@, v@)] + s.skip(i as int + 1)));
                    assert(out.deep_view() =~= m_insert(s, k@, v@).take(i as int + 1));
                }
            } else {
                out.push((self.entries[i].0.clone(), self.entries[i].1.clone()));
                proof {
                    assert(out.deep_view() =~= prev.push(s[i as int]));
                    if replaced {
                        let j0 = choose|j0: int| 0 <= j0 < i && (#[trigger] s[j0]).0 == k@;
                        assert(s[i as int].0 != s[j0].0);
                        assert(m_get(s, k@) is Some) by {
                            lemma_m_get_present(s, j0);
                        }
                        assert(m_insert(s, k@, v@)[i as int] == s[i as int]) by {
                            lemma_m_insert_shape(s, k@, v@);
                        }
                        assert(out.deep_view() =~= m_insert(s, k@, v@).take(i as int + 1));
                    } else {
                        assert((seq![s[i as int]] + m_insert(s.skip(i as int + 1), k@, v@)).skip(1)
                            =~= m_insert(s.skip(i as int + 1), k@, v@));
                        assert(prev + (seq![s[i as int]] + m_insert(s.skip(i as int + 1), k@, v@))
                            =~= out.deep_view() + m_insert(s.skip(i as int + 1), k@, v@));
                    }
                }
            }
            i += 1;
        }
        if !replaced {
            let ghost prev = out.deep_view();
            out.push((k, v));
            proof {
                assert(s.skip(i as int) =~= Seq::<(Seq<char>, Seq<char>)>::empty());
                assert(out.deep_view() =~= prev.push((k@, v@)));
                assert(m_insert(Seq::<(Seq<char>, Seq<char>)>::empty(), k@, v@) =~= seq![(k@, v@)]);
                assert(out.deep_view() =~= m_insert(s, k@, v@));
            }
        } else {
            proof {
                let j0 = choose|j0: int| 0 <= j0 < s.len() && (#[trigger] s[j0]).0 == k@;
                lemma_m_get_present(s, j0);
                lemma_m_insert_shape(s, k@, v@);
                assert(out.deep_view() =~= m_insert(s, k@, v@));
            }
        }
        proof {
            lemma_m_insert_unique(s, k@, v@);
        }
        let r = MetadataMap { entries: out };
        *self = r;
    }

    /// Writes every binding of `other` into this mapping, in order; on a
    /// shared key `other` wins.
    pub fn extend_from(&mut self, other: &MetadataMap)
        ensures
            final(self)@ == m_extend(old(self)@, other@),
    {
        let ghost b = other@;
        let mut i: usize = 0;
        proof {
            assert(b.skip(0) =~= b);
        }
        while i < other.entries.len()
            invariant
                b == other@,
                b.len() == other.entries.len(),
                0 <= i <= other.entries.len(),
                m_extend(old(self)@, b) == m_extend(self@, b.skip(i as int)),
            decreases other.entries.len() - i,
        {
            proof {
                assert(b.skip(i as int)[0] == b[i as int]);
                assert(b.skip(i as int).skip(1) =~= b.skip(i as int + 1));
            }
            let k = other.entries[i].0.clone();
            let v = other.entries[i].1.clone();
            self.insert(k, v);
            i += 1;
        }
        proof {
            assert(b.skip(i as int) =~= Seq::<(Seq<char>, Seq<char>)>::empty());
        }
    }

    /// The entries as owned pairs, in order.
    pub fn pairs(&self) -> (r: Vec<(String, String)>)
        ensures
            r.deep_view() == self@,
    {
        let mut r: Vec<(String, String)> = Vec::new();
        let mut i: usize = 0;
        while i < self.entries.len()
            invariant
                0 <= i <= self.entries.len(),
                r.deep_view().len() == i,
                forall|j: int| 0 <= j < i ==> r.deep_view()[j] == self@[j],
            decreases self.entries.len() - i,
        {
            let ghost prev = r.deep_view();
            r.push((self.entries[i].0.clone(), self.entries[i].1.clone()));
            proof {
                assert(r.deep_view() =~= prev.push(self@[i as int]));
            }
            i += 1;
        }
        assert(r.deep_view() =~= self@);
        r
    }
}

impl Clone for MetadataMap {
    /// A clone holds the same entries.
    fn clone(&self) -> (r: Self)
        ensures
            r@ == self@,
    {
        proof {
            use_type_invariant(self);
        }
        let r = MetadataMap { entries: self.pairs() };
        r
    }
}

impl PartialEq for MetadataMap {
    fn eq(&self, other: &Self) -> (r: bool) {
        if self.entries.len() != other.entries.len() {
            return false;
        }
        let n = self.entries.len();
        let mut i: usize = 0;
        while i < n
            invariant
                n == self.entries.len(),
                n == other.entries.len(),
                0 <= i <= n,
                forall|j: int| 0 <= j < i ==> m_get(other@, (#[trigger] self@[j]).0) == Some(
                    self@[j].1,
                ),
            decreases n - i,
        {
            match other.get(self.entries[i].0.as_str()) {
                Some(v) => {
                    if !str_eq(v.as_str(), self.entries[i].1.as_str()) {
                        assert(m_get(other@, self@[i as int].0) != Some(self@[i as int].1));
                        return false;
                    }
                },
                None => {
                    assert(m_get(other@, self@[i as int].0) != Some(self@[i as int].1));
                    return false;
                },
            }
            i += 1;
        }
        true
    }
}

impl vstd::std_specs::cmp::PartialEqSpecImpl for MetadataMap {
    open spec fn obeys_eq_spec() -> bool {
        true
    }

    open spec fn eq_spec(&self, other: &MetadataMap) -> bool {
        m_equiv(self@, other@)
    }
}

impl Eq for MetadataMap {}

/// What one insertion does to every lookup: the inserted key reads the
/// new value, every other key is untouched.
pub proof fn lemma_m_insert_get_any(s: Seq<(Seq<char>, Seq<char>)>, k: Seq<char>, v: Seq<char>, k2: Seq<char>)
    ensures
        m_get(m_insert(s, k, v), k2) == (if k2 == k {
            Some(v)
        } else {
            m_get(s, k2)
        }),
    decreases s.len(),
{
    if s.len() == 0 {
        assert(m_insert(s, k, v) =~= seq![(k, v)]);
        assert(m_insert(s, k, v).skip(1) =~= s);
    } else if s[0].0 == k {
        assert(m_insert(s, k, v) =~= seq![(k, v)] + s.skip(1));
        assert(m_insert(s, k, v).skip(1) =~= s.skip(1));
    } else {
        assert(m_insert(s, k, v) =~= seq![s[0]] + m_insert(s.skip(1), k, v));
        assert(m_insert(s, k, v).skip(1) =~= m_insert(s.skip(1), k, v));
        lemma_m_insert_get_any(s.skip(1), k, v, k2);
    }
}

/// A key readable before a merge is still readable after it.
pub proof fn lemma_m_extend_keeps(
    a: Seq<(Seq<char>, Seq<char>)>,
    b: Seq<(Seq<char>, Seq<char>)>,
    k: Seq<char>,
)
    requires
        m_get(a, k) is Some,
    ensures
        m_get(m_extend(a, b), k) is Some,
    decreases b.len(),
{
    if b.len() > 0 {
        lemma_m_insert_get_any(a, b[0].0, b[0].1, k);
        lemma_m_extend_keeps(m_insert(a, b[0].0, b[0].1), b.skip(1), k);
    }
}

/// A key readable in the merged-in mapping is readable after the merge.
pub proof fn lemma_m_extend_adds(
    a: Seq<(Seq<char>, Seq<char>)>,
    b: Seq<(Seq<char>, Seq<char>)>,
    k: Seq<char>,
)
    requires
        m_get(b, k) is Some,
    ensures
        m_get(m_extend(a, b), k) is Some,
    decreases b.len(),
{
    if b[0].0 == k {
        lemma_m_insert_get_any(a, b[0].0, b[0].1, k);
        lemma_m_extend_keeps(m_insert(a, b[0].0, b[0].1), b.skip(1), k);
    } else {
        lemma_m_extend_adds(m_insert(a, b[0].0, b[0].1), b.skip(1), k);
    }
}

/// A key standing at some index is found by `m_get`.
proof fn lemma_m_get_present(s: Seq<(Seq<char>, Seq<char>)>, j: int)
    requires
        0 <= j < s.len(),
    ensures
        m_get(s, s[j].0) is Some,
    decreases j,
{
    if s[0].0 != s[j].0 {
        assert(s.skip(1)[j - 1] == s[j]);
        lemma_m_get_present(s.skip(1), j - 1);
    }
}

/// Inserting an existing key rewrites its value in place: the keys and
/// the other values stay where they were.
pub proof fn lemma_m_insert_shape(s: Seq<(Seq<char>, Seq<char>)>, k: Seq<char>, v: Seq<char>)
    ensures
        m_get(s, k) is Some ==> {
            &&& m_insert(s, k, v).len() == s.len()
            &&& forall|i: int| 0 <= i < s.len() ==> (#[trigger] m_insert(s, k, v)[i]).0 == s[i].0
            &&& forall|i: int|
                0 <= i < s.len() && s[i].0 != k ==> #[trigger] m_insert(s, k, v)[i] == s[i]
        },
    decreases s.len(),
{
    if s.len() > 0 && s[0].0 != k {
        lemma_m_insert_shape(s.skip(1), k, v);
        if m_get(s, k) is Some {
            assert(forall|i: int|
                1 <= i < s.len() ==> (#[trigger] m_insert(s, k, v)[i]) == m_insert(
                    s.skip(1),
                    k,
                    v,
                )[i - 1]);
            assert(forall|i: int| 1 <= i < s.len() ==> (#[trigger] s[i]) == s.skip(1)[i - 1]);
        }
    }
}

/// Insertion keeps keys unique.
pub proof fn lemma_m_insert_unique(s: Seq<(Seq<char>, Seq<char>)>, k: Seq<char>, v: Seq<char>)
    requires
        m_unique(s),
    ensures
        m_unique(m_insert(s, k, v)),
        m_get(m_insert(s, k, v), k) == Some(v),
        forall|k2: Seq<char>| k2 != k ==> m_get(m_insert(s, k, v), k2) == m_get(s, k2),
    decreases s.len(),
{
    lemma_m_insert_keys(s, k, v);
    if s.len() == 0 {
        assert forall|k2: Seq<char>| k2 != k implies m_get(m_insert(s, k, v), k2) == m_get(
            s,
            k2,
        ) by {
            assert(m_insert(s, k, v) =~= seq![(k, v)]);
            assert(m_insert(s, k, v).skip(1) =~= s);
        }
    } else if s[0].0 == k {
        assert(m_insert(s, k, v) =~= seq![(k, v)] + s.skip(1));
        assert(forall|i: int|
            1 <= i < s.len() ==> (#[trigger] m_insert(s, k, v)[i]) == s.skip(1)[i - 1]);
        assert forall|k2: Seq<char>| k2 != k implies m_get(m_insert(s, k, v), k2) == m_get(
            s,
            k2,
        ) by {
            assert(m_insert(s, k, v).skip(1) =~= s.skip(1));
        }
    } else {
        assert(m_unique(s.skip(1)));
        lemma_m_insert_unique(s.skip(1), k, v);
        assert(m_insert(s, k, v) =~= seq![s[0]] + m_insert(s.skip(1), k, v));
        assert(m_insert(s, k, v).skip(1) =~= m_insert(s.skip(1), k, v));
        assert forall|k2: Seq<char>| k2 != k implies m_get(m_insert(s, k, v), k2) == m_get(
            s,
            k2,
        ) by {
            assert(m_insert(s, k, v)[0] == s[0]);
            if s[0].0 == k2 {
                assert(m_get(m_insert(s, k, v), k2) == Some(s[0].1));
                assert(m_get(s, k2) == Some(s[0].1));
            } else {
                assert(m_get(m_insert(s, k, v), k2) == m_get(m_insert(s.skip(1), k, v), k2));
                assert(m_get(s, k2) == m_get(s.skip(1), k2));
            }
        }
        assert forall|i: int, j: int|
            0 <= i < j < m_insert(s, k, v).len() implies (#[trigger] m_insert(s, k, v)[i]).0 != (
        #[trigger] m_insert(s, k, v)[j]).0 by {
            if i == 0 {
                lemma_m_insert_keys(s.skip(1), k, v);
                if m_insert(s, k, v)[j].0 == s[0].0 {
                    assert(m_insert(s.skip(1), k, v)[j - 1].0 == s[0].0);
                }
            }
        }
    }
}

/// The keys after insertion are the old keys, possibly with `k` added.
proof fn lemma_m_insert_keys(s: Seq<(Seq<char>, Seq<char>)>, k: Seq<char>, v: Seq<char>)
    ensures
        forall|i: int|
            0 <= i < m_insert(s, k, v).len() ==> (#[trigger] m_insert(s, k, v)[i]).0 == k || (
            exists|j: int| 0 <= j < s.len() && (#[trigger] s[j]).0 == m_insert(s, k, v)[i].0),
    decreases s.len(),
{
    if s.len() == 0 {
    } else if s[0].0 == k {
        assert(forall|i: int|
            1 <= i < m_insert(s, k, v).len() ==> (#[trigger] m_insert(s, k, v)[i]) == s[i]);
    } else {
        lemma_m_insert_keys(s.skip(1), k, v);
        assert forall|i: int|
            0 <= i < m_insert(s, k, v).len() implies (#[trigger] m_insert(s, k, v)[i]).0 == k || (
        exists|j: int| 0 <= j < s.len() && (#[trigger] s[j]).0 == m_insert(s, k, v)[i].0) by {
            if i > 0 {
                assert(m_insert(s, k, v)[i] == m_insert(s.skip(1), k, v)[i - 1]);
                if m_insert(s.skip(1), k, v)[i - 1].0 != k {
                    let j = choose|j: int|
                        0 <= j < s.skip(1).len() && (#[trigger] s.skip(1)[j]).0 == m_insert(
                            s.skip(1),
                            k,
                            v,
                        )[i - 1].0;
                    assert(s[j + 1].0 == m_insert(s, k, v)[i].0);
                }
            }
        }
    }
}

} // verus!
