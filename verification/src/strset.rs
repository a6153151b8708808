//! A set of names (class names, identifiers) held as a strictly sorted,
//! duplicate-free vector of strings. The view of a [`NameSet`] is the set of
//! its members' character sequences; the sorted order makes rendering
//! deterministic and set equality decidable by direct comparison.

use vstd::prelude::*;

use crate::text::{lemma_lex_trans, lemma_lex_trichotomy, lex_lt, str_eq, str_lt};

verus! {

/// The character sequences of a vector of strings.
pub open spec fn views_of(v: Seq<String>) -> Seq<Seq<char>> {
    v.map_values(|s: String| s@)
}

/// Appending a string appends its character sequence to the views.
pub proof fn lemma_views_push(v: Seq<String>, s: String)
    ensures
        views_of(v.push(s)) == views_of(v).push(s@),
{
    assert(views_of(v.push(s)) =~= views_of(v).push(s@)) by {
        assert(v.push(s).len() == v.len() + 1);
        assert forall|j: int| 0 <= j < v.len() + 1 implies views_of(v.push(s))[j] == views_of(
            v,
        ).push(s@)[j] by {
            if j < v.len() {
                assert(v.push(s)[j] == v[j]);
            } else {
                assert(v.push(s)[j] == s);
            }
        }
    }
}

/// The views of a concatenation are the concatenated views.
pub proof fn lemma_views_concat(a: Seq<String>, b: Seq<String>)
    ensures
        views_of(a + b) == views_of(a) + views_of(b),
{
    assert(views_of(a + b) =~= views_of(a) + views_of(b)) by {
        assert forall|j: int| 0 <= j < a.len() + b.len() implies views_of(a + b)[j] == (views_of(a)
            + views_of(b))[j] by {
            if j < a.len() {
                assert((a + b)[j] == a[j]);
            } else {
                assert((a + b)[j] == b[j - a.len()]);
            }
        }
    }
}

/// Taking one more name adds exactly that name to the set of members.
pub proof fn lemma_take_to_set_step(s: Seq<Seq<char>>, n: int)
    requires
        0 <= n < s.len(),
    ensures
        s.take(n + 1).to_set() == s.take(n).to_set().insert(s[n]),
{
    let t1 = s.take(n + 1);
    let t0 = s.take(n);
    assert forall|y: Seq<char>| t1.to_set().contains(y) implies t0.to_set().insert(
        s[n],
    ).contains(y) by {
        let k = choose|k: int| 0 <= k < t1.len() && t1[k] == y;
        if k < n {
            assert(t0[k] == y);
        }
    }
    assert forall|y: Seq<char>| t0.to_set().insert(s[n]).contains(y) implies t1.to_set().contains(
        y,
    ) by {
        if y == s[n] {
            assert(t1[n] == y);
        } else {
            let k = choose|k: int| 0 <= k < t0.len() && t0[k] == y;
            assert(t1[k] == y);
        }
    }
    assert(t1.to_set() =~= t0.to_set().insert(s[n]));
}

/// Strict ascending lexicographic order, hence no duplicates.
pub open spec fn strictly_sorted_names(s: Seq<Seq<char>>) -> bool {
    forall|i: int, j: int| 0 <= i < j < s.len() ==> lex_lt(s[i], s[j])
}

/// A finite set of names, stored in strictly ascending lexicographic order.
pub struct NameSet {
    pub items: Vec<String>,
}

impl View for NameSet {
    type V = Set<Seq<char>>;

    open spec fn view(&self) -> Set<Seq<char>> {
        views_of(self.items@).to_set()
    }
}

proof fn lemma_lex_irrefl(a: Seq<char>)
    ensures
        !lex_lt(a, a),
{
    lemma_lex_trichotomy(a, a);
}

/// Inserting one element at position `j` of a sequence adds exactly that
/// element to the sequence's set of members.
proof fn lemma_to_set_insert_at(s: Seq<Seq<char>>, j: int, x: Seq<char>)
    requires
        0 <= j <= s.len(),
    ensures
        (s.take(j) + seq![x] + s.skip(j)).to_set() == s.to_set().insert(x),
{
    let t = s.take(j) + seq![x] + s.skip(j);
    assert forall|y: Seq<char>| t.to_set().contains(y) implies s.to_set().insert(x).contains(
        y,
    ) by {
        let i = choose|i: int| 0 <= i < t.len() && t[i] == y;
        if i < j {
            assert(s[i] == y);
            assert(s.to_set().contains(y));
        } else if i == j {
            assert(y == x);
        } else {
            assert(s[i - 1] == y);
            assert(s.to_set().contains(y));
        }
    }
    assert forall|y: Seq<char>| s.to_set().insert(x).contains(y) implies t.to_set().contains(
        y,
    ) by {
        if y == x {
            assert(t[j] == y);
        } else {
            let i = choose|i: int| 0 <= i < s.len() && s[i] == y;
            if i < j {
                assert(t[i] == y);
            } else {
                assert(t[i + 1] == y);
            }
        }
    }
    assert(t.to_set() =~= s.to_set().insert(x));
}

/// A strictly sorted sequence is the one canonical listing of its set: two
/// sorted listings of the same set are equal.
pub proof fn lemma_sorted_canonical(a: Seq<Seq<char>>, b: Seq<Seq<char>>)
    requires
        strictly_sorted_names(a),
        strictly_sorted_names(b),
        a.to_set() == b.to_set(),
    ensures
        a == b,
    decreases a.len(),
{
    if a.len() == 0 {
        if b.len() > 0 {
            assert(b.to_set().contains(b[0]));
            assert(a.to_set().contains(b[0]));
            assert(false);
        }
        assert(a =~= b);
    } else {
        assert(a.to_set().contains(a[0]));
        assert(b.to_set().contains(a[0]));
        let jb = choose|j: int| 0 <= j < b.len() && b[j] == a[0];
        assert(b.to_set().contains(b[0]));
        assert(a.to_set().contains(b[0]));
        let ja = choose|j: int| 0 <= j < a.len() && a[j] == b[0];
        assert(a[0] == b[0]) by {
            if a[0] != b[0] {
                lemma_lex_trichotomy(a[0], b[0]);
                if lex_lt(a[0], b[0]) {
                    assert(jb > 0);
                    assert(lex_lt(b[0], b[jb]));
                    lemma_lex_trichotomy(a[0], b[0]);
                    assert(false);
                } else {
                    assert(ja > 0);
                    assert(lex_lt(a[0], a[ja]));
                    lemma_lex_trichotomy(b[0], a[0]);
                    assert(false);
                }
            }
        }
        let ta = a.drop_first();
        let tb = b.drop_first();
        assert(strictly_sorted_names(ta)) by {
            assert forall|i: int, j: int| 0 <= i < j < ta.len() implies lex_lt(ta[i], ta[j]) by {
                assert(ta[i] == a[i + 1]);
                assert(ta[j] == a[j + 1]);
            }
        }
        assert(strictly_sorted_names(tb)) by {
            assert forall|i: int, j: int| 0 <= i < j < tb.len() implies lex_lt(tb[i], tb[j]) by {
                assert(tb[i] == b[i + 1]);
                assert(tb[j] == b[j + 1]);
            }
        }
        assert(ta.to_set() =~= tb.to_set()) by {
            assert forall|y: Seq<char>| ta.to_set().contains(y) implies tb.to_set().contains(
                y,
            ) by {
                let i = choose|i: int| 0 <= i < ta.len() && ta[i] == y;
                assert(a[i + 1] == y);
                assert(lex_lt(a[0], y));
                assert(a.to_set().contains(y));
                assert(b.to_set().contains(y));
                let j = choose|j: int| 0 <= j < b.len() && b[j] == y;
                assert(j != 0) by {
                    if j == 0 {
                        lemma_lex_irrefl(y);
                    }
                }
                assert(tb[j - 1] == y);
            }
            assert forall|y: Seq<char>| tb.to_set().contains(y) implies ta.to_set().contains(
                y,
            ) by {
                let i = choose|i: int| 0 <= i < tb.len() && tb[i] == y;
                assert(b[i + 1] == y);
                assert(lex_lt(b[0], y));
                assert(b.to_set().contains(y));
                assert(a.to_set().contains(y));
                let j = choose|j: int| 0 <= j < a.len() && a[j] == y;
                assert(j != 0) by {
                    if j == 0 {
                        lemma_lex_irrefl(y);
                    }
                }
                assert(ta[j - 1] == y);
            }
        }
        lemma_sorted_canonical(ta, tb);
        assert(a =~= b) by {
            assert(a.len() == b.len());
            assert forall|i: int| 0 <= i < a.len() implies a[i] == b[i] by {
                if i > 0 {
                    assert(a[i] == ta[i - 1]);
                    assert(b[i] == tb[i - 1]);
                }
            }
        }
    }
}

impl NameSet {
    /// The members in their stored ascending order.
    pub open spec fn seq_view(&self) -> Seq<Seq<char>> {
        views_of(self.items@)
    }

    /// Well-formed: strictly sorted, so duplicate-free.
    pub open spec fn wf(&self) -> bool {
        strictly_sorted_names(self.seq_view())
    }

    /// The empty set.
    pub fn new() -> (r: NameSet)
        ensures
            r.wf(),
            r@ == Set::<Seq<char>>::empty(),
            r.seq_view() == Seq::<Seq<char>>::empty(),
    {
        let r = NameSet { items: Vec::new() };
        proof {
            assert(r.seq_view() =~= Seq::<Seq<char>>::empty());
            assert(r@ =~= Set::<Seq<char>>::empty());
        }
        r
    }

    /// Whether `s` is a member.
    pub fn contains_name(&self, s: &str) -> (r: bool)
        ensures
            r == self@.contains(s@),
    {
        let mut i: usize = 0;
        while i < self.items.len()
            invariant
                i <= self.items.len(),
                forall|k: int| 0 <= k < i ==> self.seq_view()[k] != s@,
            decreases self.items.len() - i,
        {
            if str_eq(self.items[i].as_str(), s) {
                assert(self.seq_view()[i as int] == s@);
                return true;
            }
            i += 1;
        }
        proof {
            if self@.contains(s@) {
                let k = choose|k: int| 0 <= k < self.seq_view().len() && self.seq_view()[k] == s@;
                assert(false);
            }
        }
        false
    }

    /// Adds `s`; the set afterwards holds exactly the old members and `s`.
    pub fn insert(&mut self, s: String)
        requires
            old(self).wf(),
        ensures
            final(self).wf(),
            final(self)@ == old(self)@.insert(s@),
    {
        let ghost sv = self.seq_view();
        let mut j: usize = 0;
        while j < self.items.len() && str_lt(self.items[j].as_str(), s.as_str())
            invariant
                j <= self.items.len(),
                forall|k: int| 0 <= k < j ==> lex_lt(sv[k], s@),
                self == old(self),
                sv == self.seq_view(),
            decreases self.items.len() - j,
        {
            j += 1;
        }
        if j < self.items.len() && str_eq(self.items[j].as_str(), s.as_str()) {
            proof {
                assert(sv[j as int] == s@);
                assert(self@.contains(s@));
                assert(old(self)@.insert(s@) =~= old(self)@);
            }
            return ;
        }
        proof {
            if j < self.items.len() {
                lemma_lex_trichotomy(sv[j as int], s@);
            }
        }
        self.items.insert(j, s);
        proof {
            let nv = self.seq_view();
            assert(nv =~= sv.take(j as int) + seq![s@] + sv.skip(j as int)) by {
                assert(self.items@ == old(self).items@.insert(j as int, s));
                assert(nv.len() == sv.len() + 1);
                assert forall|i: int| 0 <= i < nv.len() implies nv[i] == (sv.take(j as int)
                    + seq![s@] + sv.skip(j as int))[i] by {
                    if i < j {
                        assert(self.items@[i] == old(self).items@[i]);
                    } else if i == j {
                        assert(self.items@[i] == s);
                    } else {
                        assert(self.items@[i] == old(self).items@[i - 1]);
                    }
                }
            }
            lemma_to_set_insert_at(sv, j as int, s@);
            assert(final(self)@ == old(self)@.insert(s@));
            assert(strictly_sorted_names(nv)) by {
                assert forall|x: int, y: int| 0 <= x < y < nv.len() implies lex_lt(
                    nv[x],
                    nv[y],
                ) by {
                    if y < j {
                        assert(nv[x] == sv[x]);
                        assert(nv[y] == sv[y]);
                    } else if x > j {
                        assert(nv[x] == sv[x - 1]);
                        assert(nv[y] == sv[y - 1]);
                    } else if x < j && y == j {
                        assert(nv[x] == sv[x]);
                        assert(nv[y] == s@);
                    } else if x == j && y > j {
                        assert(nv[x] == s@);
                        assert(nv[y] == sv[y - 1]);
                        if y - 1 > j {
                            assert(lex_lt(sv[j as int], sv[y - 1]));
                            lemma_lex_trans(s@, sv[j as int], sv[y - 1]);
                        }
                    } else {
                        assert(x < j && y > j);
                        assert(nv[x] == sv[x]);
                        assert(nv[y] == sv[y - 1]);
                        assert(x < y - 1 || x == y - 1);
                        if x == y - 1 {
                            assert(lex_lt(sv[x], s@));
                            assert(j <= y - 1);
                            assert(false);
                        }
                        assert(lex_lt(sv[x], sv[y - 1]));
                    }
                }
            }
        }
    }

    /// Adds every string of `names`.
    pub fn insert_all(&mut self, names: &Vec<String>)
        requires
            old(self).wf(),
        ensures
            final(self).wf(),
            final(self)@ == old(self)@ + views_of(names@).to_set(),
    {
        let ghost nv = views_of(names@);
        let mut i: usize = 0;
        proof {
            assert(old(self)@ + nv.take(0).to_set() =~= old(self)@) by {
                assert(nv.take(0).len() == 0);
            }
        }
        while i < names.len()
            invariant
                i <= names.len(),
                nv == views_of(names@),
                self.wf(),
                self@ == old(self)@ + nv.take(i as int).to_set(),
            decreases names.len() - i,
        {
            let s = names[i].clone();
            assert(s@ == nv[i as int]);
            self.insert(s);
            i += 1;
            proof {
                assert(nv.take(i as int).to_set() =~= nv.take(i as int - 1).to_set().insert(
                    nv[i as int - 1],
                )) by {
                    let t1 = nv.take(i as int);
                    let t0 = nv.take(i as int - 1);
                    assert forall|y: Seq<char>| t1.to_set().contains(y) implies t0.to_set().insert(
                        nv[i as int - 1],
                    ).contains(y) by {
                        let k = choose|k: int| 0 <= k < t1.len() && t1[k] == y;
                        if k < i - 1 {
                            assert(t0[k] == y);
                        }
                    }
                    assert forall|y: Seq<char>|
                        t0.to_set().insert(nv[i as int - 1]).contains(y) implies t1.to_set()
                        .contains(y) by {
                        if y == nv[i as int - 1] {
                            assert(t1[i as int - 1] == y);
                        } else {
                            let k = choose|k: int| 0 <= k < t0.len() && t0[k] == y;
                            assert(t1[k] == y);
                        }
                    }
                }
                assert(self@ =~= old(self)@ + nv.take(i as int).to_set());
            }
        }
        proof {
            assert(nv.take(names@.len() as int) =~= nv);
        }
    }

    /// The number of members.
    pub fn len(&self) -> (r: usize)
        requires
            self.wf(),
        ensures
            r == self@.len(),
    {
        proof {
            let sv = self.seq_view();
            assert(sv.no_duplicates()) by {
                assert forall|i: int, j: int|
                    0 <= i < sv.len() && 0 <= j < sv.len() && i != j implies sv[i] != sv[j] by {
                    if i < j {
                        lemma_lex_trichotomy(sv[i], sv[j]);
                    } else {
                        lemma_lex_trichotomy(sv[j], sv[i]);
                    }
                }
            }
            sv.unique_seq_to_set();
        }
        self.items.len()
    }

    /// A copy with the same members.
    pub fn dup(&self) -> (r: NameSet)
        ensures
            r.seq_view() == self.seq_view(),
            r@ == self@,
            r.wf() == self.wf(),
    {
        let items = self.items.clone();
        let r = NameSet { items };
        proof {
            assert(r.seq_view() =~= self.seq_view()) by {
                assert(r.items@.len() == self.items@.len());
                assert(forall|i: int|
                    0 <= i < r.items@.len() ==> #[trigger] r.items@[i]@ == self.items@[i]@) by {
                    assert(forall|i: int|
                        0 <= i < r.items@.len() ==> cloned(self.items@[i], #[trigger] r.items@[i]));
                }
            }
        }
        r
    }

    /// The union of two sets.
    pub fn merge(&self, other: &NameSet) -> (r: NameSet)
        requires
            self.wf(),
        ensures
            r.wf(),
            r@ == self@ + other@,
    {
        let mut r = self.dup();
        r.insert_all(&other.items);
        proof {
            assert(r@ =~= self@ + other@);
        }
        r
    }

    /// The members of `self` that are not members of `other`.
    pub fn minus(&self, other: &NameSet) -> (r: NameSet)
        ensures
            r.wf(),
            r@ == self@.difference(other@),
    {
        let mut r = NameSet::new();
        let ghost sv = self.seq_view();
        let mut i: usize = 0;
        proof {
            assert(r@ =~= sv.take(0).to_set().difference(other@)) by {
                assert(forall|y: Seq<char>| !sv.take(0).to_set().contains(y));
            }
        }
        while i < self.items.len()
            invariant
                i <= self.items.len(),
                sv == self.seq_view(),
                r.wf(),
                r@ == sv.take(i as int).to_set().difference(other@),
            decreases self.items.len() - i,
        {
            let present = other.contains_name(self.items[i].as_str());
            if !present {
                let s = self.items[i].clone();
                assert(s@ == sv[i as int]);
                r.insert(s);
            }
            i += 1;
            proof {
                let t1 = sv.take(i as int);
                let t0 = sv.take(i as int - 1);
                assert forall|y: Seq<char>| t1.to_set().contains(y) implies (t0.to_set().contains(y)
                    || y == sv[i as int - 1]) by {
                    let k = choose|k: int| 0 <= k < t1.len() && t1[k] == y;
                    if k < i - 1 {
                        assert(t0[k] == y);
                    }
                }
                assert(forall|y: Seq<char>| t0.to_set().contains(y) ==> t1.to_set().contains(y))
                    by {
                    assert forall|y: Seq<char>| t0.to_set().contains(y) implies t1.to_set()
                        .contains(y) by {
                        let k = choose|k: int| 0 <= k < t0.len() && t0[k] == y;
                        assert(t1[k] == y);
                    }
                }
                assert(t1.to_set().contains(sv[i as int - 1])) by {
                    assert(t1[i as int - 1] == sv[i as int - 1]);
                }
                assert(r@ =~= t1.to_set().difference(other@));
            }
        }
        proof {
            assert(sv.take(self.items@.len() as int) =~= sv);
        }
        r
    }

    /// Whether the two sets have exactly the same members.
    pub fn set_eq(&self, other: &NameSet) -> (r: bool)
        requires
            self.wf(),
            other.wf(),
        ensures
            r == (self@ == other@),
    {
        if self.items.len() != other.items.len() {
            proof {
                if self@ == other@ {
                    lemma_sorted_canonical(self.seq_view(), other.seq_view());
                    assert(self.seq_view().len() == other.seq_view().len());
                    assert(false);
                }
            }
            return false;
        }
        let mut i: usize = 0;
        while i < self.items.len()
            invariant
                i <= self.items.len(),
                self.items@.len() == other.items@.len(),
                self.wf(),
                other.wf(),
                forall|k: int| 0 <= k < i ==> self.seq_view()[k] == other.seq_view()[k],
            decreases self.items.len() - i,
        {
            if !str_eq(self.items[i].as_str(), other.items[i].as_str()) {
                proof {
                    if self@ == other@ {
                        lemma_sorted_canonical(self.seq_view(), other.seq_view());
                        assert(self.seq_view()[i as int] == other.seq_view()[i as int]);
                        assert(false);
                    }
                }
                return false;
            }
            i += 1;
        }
        proof {
            assert(self.seq_view() =~= other.seq_view());
        }
        true
    }

    /// The members, in ascending order, for rendering.
    pub fn sorted_items(&self) -> (r: &Vec<String>)
        ensures
            views_of(r@) == self.seq_view(),
    {
        &self.items
    }
}

} // verus!
