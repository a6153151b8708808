//! Identifier resolution: walks the element records collected from one
//! document, derives a deterministic base identifier for every managed
//! element (one whose class set holds the trigger class `"id"`), resolves
//! collisions with 1-based sequence numbers in encounter order, and reports
//! the class/identifier sets plus the pending identifier updates.

use vstd::prelude::*;

use crate::strset::{
    lemma_sorted_canonical, lemma_views_push, strictly_sorted_names, views_of, NameSet,
};
use crate::text::{
    chars_to_string, dec_seq, is_space, is_space_char, lemma_lex_trans, lemma_lex_trichotomy,
    lex_lt, push_dec, sort_dedup, sort_dedup_chars, str_eq, to_upper, upper_char,
};

verus! {

/// The mathematical content of one element record: its stable position
/// handle, its class names, and its current identifier attribute.
pub struct ElementModel {
    pub position: u64,
    pub classes: Seq<Seq<char>>,
    pub current: Option<Seq<char>>,
}

/// One parsed markup element of interest.
pub struct ElementInfo {
    pub position: u64,
    pub class_names: Vec<String>,
    pub current_id: Option<String>,
}

impl View for ElementInfo {
    type V = ElementModel;

    open spec fn view(&self) -> ElementModel {
        ElementModel {
            position: self.position,
            classes: views_of(self.class_names@),
            current: match self.current_id {
                Some(s) => Some(s@),
                None => None,
            },
        }
    }
}

/// The models of a sequence of element records.
pub open spec fn models_of(els: Seq<ElementInfo>) -> Seq<ElementModel> {
    els.map_values(|e: ElementInfo| e@)
}

/// The sentinel class that opts an element into identifier management.
pub open spec fn trigger_class() -> Seq<char> {
    seq!['i', 'd']
}

/// An element is managed when its class set holds the trigger class.
pub open spec fn is_managed(m: ElementModel) -> bool {
    m.classes.contains(trigger_class())
}

/// The first `n` classes of `cs` with the trigger class removed.
pub open spec fn non_trigger_upto(cs: Seq<Seq<char>>, n: int) -> Seq<Seq<char>>
    decreases n,
{
    if n <= 0 {
        Seq::<Seq<char>>::empty()
    } else {
        non_trigger_upto(cs, n - 1) + (if cs[n - 1] == trigger_class() {
            Seq::<Seq<char>>::empty()
        } else {
            seq![cs[n - 1]]
        })
    }
}

/// The classes of `cs` other than the trigger class, in order.
pub open spec fn non_trigger_classes(cs: Seq<Seq<char>>) -> Seq<Seq<char>> {
    non_trigger_upto(cs, cs.len() as int)
}

/// At most five representatives: first, second, middle, second-to-last and
/// last when there are more than five, otherwise all of them.
pub open spec fn sample5(s: Seq<Seq<char>>) -> Seq<Seq<char>> {
    if s.len() > 5 {
        seq![
            s[0],
            s[1],
            s[s.len() as int / 2],
            s[s.len() as int - 2],
            s[s.len() as int - 1],
        ]
    } else {
        s
    }
}

/// The upper-cased first characters of the first `n` nonempty names.
pub open spec fn initials_upto(s: Seq<Seq<char>>, n: int) -> Seq<char>
    decreases n,
{
    if n <= 0 {
        Seq::<char>::empty()
    } else {
        initials_upto(s, n - 1) + (if s[n - 1].len() > 0 {
            seq![upper_char(s[n - 1][0])]
        } else {
            Seq::<char>::empty()
        })
    }
}

/// The upper-cased first characters of the nonempty names of `s`.
pub open spec fn initials(s: Seq<Seq<char>>) -> Seq<char> {
    initials_upto(s, s.len() as int)
}

/// The base identifier derived from a class list: `"G"` when nothing but the
/// trigger class is present, otherwise the sorted, deduplicated upper-cased
/// initials of up to five representative non-trigger classes.
pub open spec fn base_id_of_classes(cs: Seq<Seq<char>>) -> Seq<char> {
    let nt = non_trigger_classes(cs);
    if nt.len() == 0 {
        seq!['G']
    } else {
        sort_dedup_chars(initials(sample5(nt)))
    }
}

/// The base identifier of a managed element.
pub open spec fn base_id_of(m: ElementModel) -> Seq<char> {
    base_id_of_classes(m.classes)
}

/// How many of the first `n` elements are managed with base identifier `b`.
pub open spec fn group_count_upto(ms: Seq<ElementModel>, b: Seq<char>, n: int) -> int
    decreases n,
{
    if n <= 0 {
        0
    } else {
        group_count_upto(ms, b, n - 1) + (if is_managed(ms[n - 1]) && base_id_of(ms[n - 1]) == b {
            1int
        } else {
            0int
        })
    }
}

/// The size of the collision group with base identifier `b`.
pub open spec fn group_size(ms: Seq<ElementModel>, b: Seq<char>) -> int {
    group_count_upto(ms, b, ms.len() as int)
}

/// The final identifier of the managed element at index `i`: the bare base
/// identifier when its group has one member, otherwise the base identifier
/// followed by a 1-based sequence number in encounter order.
pub open spec fn final_id_at(ms: Seq<ElementModel>, i: int) -> Seq<char> {
    let b = base_id_of(ms[i]);
    if group_size(ms, b) == 1 {
        b
    } else {
        b + dec_seq((group_count_upto(ms, b, i) + 1) as nat)
    }
}

/// Whether the element at index `i` needs an identifier update.
pub open spec fn needs_update(ms: Seq<ElementModel>, i: int) -> bool {
    is_managed(ms[i]) && ms[i].current != Some(final_id_at(ms, i))
}

/// The pending identifier updates among the first `n` elements, in encounter
/// order: position and new identifier of every managed element whose final
/// identifier differs from its current one.
pub open spec fn updates_upto(ms: Seq<ElementModel>, n: int) -> Seq<(u64, Seq<char>)>
    decreases n,
{
    if n <= 0 {
        Seq::<(u64, Seq<char>)>::empty()
    } else {
        updates_upto(ms, n - 1) + (if needs_update(ms, n - 1) {
            seq![(ms[n - 1].position, final_id_at(ms, n - 1))]
        } else {
            Seq::<(u64, Seq<char>)>::empty()
        })
    }
}

/// All pending identifier updates.
pub open spec fn updates_of(ms: Seq<ElementModel>) -> Seq<(u64, Seq<char>)> {
    updates_upto(ms, ms.len() as int)
}

/// The classes contributed by the first `n` elements.
pub open spec fn class_set_upto(ms: Seq<ElementModel>, n: int) -> Set<Seq<char>>
    decreases n,
{
    if n <= 0 {
        Set::<Seq<char>>::empty()
    } else {
        class_set_upto(ms, n - 1) + ms[n - 1].classes.to_set()
    }
}

/// The union of all elements' class sets.
pub open spec fn class_set_of(ms: Seq<ElementModel>) -> Set<Seq<char>> {
    class_set_upto(ms, ms.len() as int)
}

/// The identifier contributed by the element at index `i`: its final
/// identifier when managed, otherwise its existing identifier, if any.
pub open spec fn id_contrib(ms: Seq<ElementModel>, i: int) -> Set<Seq<char>> {
    if is_managed(ms[i]) {
        set![final_id_at(ms, i)]
    } else {
        match ms[i].current {
            Some(id) => set![id],
            None => Set::<Seq<char>>::empty(),
        }
    }
}

/// The identifiers contributed by the first `n` elements.
pub open spec fn id_set_upto(ms: Seq<ElementModel>, n: int) -> Set<Seq<char>>
    decreases n,
{
    if n <= 0 {
        Set::<Seq<char>>::empty()
    } else {
        id_set_upto(ms, n - 1) + id_contrib(ms, n - 1)
    }
}

/// The set of all final identifiers.
pub open spec fn id_set_of(ms: Seq<ElementModel>) -> Set<Seq<char>> {
    id_set_upto(ms, ms.len() as int)
}

/// One step of whitespace splitting: the tokens of `s` from index `i` on,
/// with `cur` the token being gathered and `acc` the tokens already taken.
pub open spec fn split_ws_go(
    s: Seq<char>,
    i: int,
    cur: Seq<char>,
    acc: Seq<Seq<char>>,
) -> Seq<Seq<char>>
    decreases s.len() - i,
{
    if i < 0 || i >= s.len() {
        if cur.len() > 0 {
            acc.push(cur)
        } else {
            acc
        }
    } else if is_space_char(s[i]) {
        if cur.len() > 0 {
            split_ws_go(s, i + 1, Seq::<char>::empty(), acc.push(cur))
        } else {
            split_ws_go(s, i + 1, cur, acc)
        }
    } else {
        split_ws_go(s, i + 1, cur.push(s[i]), acc)
    }
}

/// The whitespace-delimited tokens of `s`, in order; blanks are dropped.
pub open spec fn split_ws(s: Seq<char>) -> Seq<Seq<char>> {
    split_ws_go(s, 0, Seq::<char>::empty(), Seq::<Seq<char>>::empty())
}

/// Splits a class attribute value on whitespace.
pub fn split_whitespace_names(s: &str) -> (r: Vec<String>)
    ensures
        views_of(r@) == split_ws(s@),
{
    let len = s.unicode_len();
    let mut acc: Vec<String> = Vec::new();
    let mut cur: Vec<char> = Vec::new();
    let mut i: usize = 0;
    proof {
        assert(views_of(acc@) =~= Seq::<Seq<char>>::empty());
        assert(cur@ =~= Seq::<char>::empty());
    }
    while i < len
        invariant
            i <= len,
            len == s@.len(),
            split_ws_go(s@, i as int, cur@, views_of(acc@)) == split_ws(s@),
        decreases len - i,
    {
        let c = s.get_char(i);
        if is_space(c) {
            if cur.len() > 0 {
                let tok = chars_to_string(&cur);
                let ghost tv = tok;
                let ghost pre = acc@;
                acc.push(tok);
                proof {
                    lemma_views_push(pre, tv);
                }
                cur = Vec::new();
            }
        } else {
            cur.push(c);
        }
        i += 1;
    }
    if cur.len() > 0 {
        let tok = chars_to_string(&cur);
        let ghost tv = tok;
        let ghost pre = acc@;
        acc.push(tok);
        proof {
            lemma_views_push(pre, tv);
        }
    }
    acc
}

/// Sorted insertion of a name, dropping it if already present.
pub open spec fn insert_sorted_name(x: Seq<char>, s: Seq<Seq<char>>) -> Seq<Seq<char>>
    decreases s.len(),
{
    if s.len() == 0 {
        seq![x]
    } else if lex_lt(x, s[0]) {
        seq![x] + s
    } else if x == s[0] {
        s
    } else {
        seq![s[0]] + insert_sorted_name(x, s.drop_first())
    }
}

/// The sorted, duplicate-free listing of the names of `s`.
pub open spec fn sort_dedup_names(s: Seq<Seq<char>>) -> Seq<Seq<char>>
    decreases s.len(),
{
    if s.len() == 0 {
        Seq::<Seq<char>>::empty()
    } else {
        insert_sorted_name(s[0], sort_dedup_names(s.drop_first()))
    }
}

proof fn lemma_insert_sorted_name_props(x: Seq<char>, s: Seq<Seq<char>>)
    requires
        strictly_sorted_names(s),
    ensures
        strictly_sorted_names(insert_sorted_name(x, s)),
        insert_sorted_name(x, s).to_set() == s.to_set().insert(x),
    decreases s.len(),
{
    let r = insert_sorted_name(x, s);
    if s.len() == 0 {
        assert(r =~= seq![x]);
        assert(r.to_set() =~= s.to_set().insert(x)) by {
            assert(r[0] == x);
            assert forall|y: Seq<char>| s.to_set().insert(x).contains(y) implies r.to_set()
                .contains(y) by {
                assert(y == x);
                assert(r[0] == y);
            }
        }
    } else if lex_lt(x, s[0]) {
        assert(r == seq![x] + s);
        assert(strictly_sorted_names(r)) by {
            assert forall|i: int, j: int| 0 <= i < j < r.len() implies lex_lt(r[i], r[j]) by {
                if i == 0 {
                    assert(r[j] == s[j - 1]);
                    if j == 1 {
                    } else {
                        lemma_lex_trans(x, s[0], s[j - 1]);
                    }
                } else {
                    assert(r[i] == s[i - 1]);
                    assert(r[j] == s[j - 1]);
                }
            }
        }
        assert(r.to_set() =~= s.to_set().insert(x)) by {
            assert forall|y: Seq<char>| r.to_set().contains(y) implies s.to_set().insert(
                x,
            ).contains(y) by {
                let i = choose|i: int| 0 <= i < r.len() && r[i] == y;
                if i > 0 {
                    assert(s[i - 1] == y);
                }
            }
            assert forall|y: Seq<char>| s.to_set().insert(x).contains(y) implies r.to_set()
                .contains(y) by {
                if y == x {
                    assert(r[0] == y);
                } else {
                    let i = choose|i: int| 0 <= i < s.len() && s[i] == y;
                    assert(r[i + 1] == y);
                }
            }
        }
    } else if x == s[0] {
        assert(r == s);
        assert(r.to_set() =~= s.to_set().insert(x)) by {
            assert(s[0] == x);
            assert(s.to_set().contains(x));
        }
    } else {
        lemma_lex_trichotomy(x, s[0]);
        assert(lex_lt(s[0], x));
        let t = s.drop_first();
        assert(strictly_sorted_names(t)) by {
            assert forall|i: int, j: int| 0 <= i < j < t.len() implies lex_lt(t[i], t[j]) by {
                assert(t[i] == s[i + 1]);
                assert(t[j] == s[j + 1]);
            }
        }
        lemma_insert_sorted_name_props(x, t);
        let rt = insert_sorted_name(x, t);
        assert(r == seq![s[0]] + rt);
        assert(strictly_sorted_names(r)) by {
            assert forall|i: int, j: int| 0 <= i < j < r.len() implies lex_lt(r[i], r[j]) by {
                if i == 0 {
                    assert(r[j] == rt[j - 1]);
                    assert(rt.to_set().contains(rt[j - 1]));
                    assert(t.to_set().insert(x).contains(rt[j - 1]));
                    if rt[j - 1] == x {
                    } else {
                        let k = choose|k: int| 0 <= k < t.len() && t[k] == rt[j - 1];
                        assert(t[k] == s[k + 1]);
                        assert(lex_lt(s[0], s[k + 1]));
                    }
                } else {
                    assert(r[i] == rt[i - 1]);
                    assert(r[j] == rt[j - 1]);
                }
            }
        }
        assert(r.to_set() =~= s.to_set().insert(x)) by {
            assert forall|y: Seq<char>| r.to_set().contains(y) implies s.to_set().insert(
                x,
            ).contains(y) by {
                let i = choose|i: int| 0 <= i < r.len() && r[i] == y;
                if i == 0 {
                    assert(s[0] == y);
                } else {
                    assert(rt[i - 1] == y);
                    assert(rt.to_set().contains(y));
                    assert(t.to_set().insert(x).contains(y));
                    if y != x {
                        let k = choose|k: int| 0 <= k < t.len() && t[k] == y;
                        assert(s[k + 1] == y);
                    }
                }
            }
            assert forall|y: Seq<char>| s.to_set().insert(x).contains(y) implies r.to_set()
                .contains(y) by {
                if y == x {
                    assert(rt.to_set().contains(y));
                    let k = choose|k: int| 0 <= k < rt.len() && rt[k] == y;
                    assert(r[k + 1] == y);
                } else {
                    let i = choose|i: int| 0 <= i < s.len() && s[i] == y;
                    if i == 0 {
                        assert(r[0] == y);
                    } else {
                        assert(t[i - 1] == y);
                        assert(t.to_set().contains(y));
                        assert(rt.to_set().contains(y));
                        let k = choose|k: int| 0 <= k < rt.len() && rt[k] == y;
                        assert(r[k + 1] == y);
                    }
                }
            }
        }
    }
}

/// The sorted deduplicated listing is strictly sorted and lists exactly the
/// names given.
pub proof fn lemma_sort_dedup_names_props(s: Seq<Seq<char>>)
    ensures
        strictly_sorted_names(sort_dedup_names(s)),
        sort_dedup_names(s).to_set() == s.to_set(),
    decreases s.len(),
{
    if s.len() == 0 {
        assert(sort_dedup_names(s).to_set() =~= s.to_set());
    } else {
        let t = s.drop_first();
        lemma_sort_dedup_names_props(t);
        lemma_insert_sorted_name_props(s[0], sort_dedup_names(t));
        assert(sort_dedup_names(s).to_set() =~= s.to_set()) by {
            assert(sort_dedup_names(s).to_set() == t.to_set().insert(s[0]));
            assert forall|y: Seq<char>| t.to_set().insert(s[0]).contains(y) implies s.to_set()
                .contains(y) by {
                if y == s[0] {
                } else {
                    let k = choose|k: int| 0 <= k < t.len() && t[k] == y;
                    assert(s[k + 1] == y);
                }
            }
            assert forall|y: Seq<char>| s.to_set().contains(y) implies t.to_set().insert(
                s[0],
            ).contains(y) by {
                let k = choose|k: int| 0 <= k < s.len() && s[k] == y;
                if k > 0 {
                    assert(t[k - 1] == y);
                }
            }
        }
    }
}

/// The view of an optional attribute value.
pub open spec fn opt_str_view(o: Option<&str>) -> Option<Seq<char>> {
    match o {
        Some(s) => Some(s@),
        None => None,
    }
}

/// The records contributed by one visited element: its sorted deduplicated
/// class tokens and its non-empty identifier attribute; an element with
/// neither is dropped.
pub open spec fn element_extract(
    p: u64,
    class_attr: Option<Seq<char>>,
    id_attr: Option<Seq<char>>,
) -> Seq<ElementModel> {
    let tokens = match class_attr {
        Some(v) => sort_dedup_names(split_ws(v)),
        None => Seq::<Seq<char>>::empty(),
    };
    let cur = match id_attr {
        Some(v) => if v.len() > 0 {
            Some(v)
        } else {
            None
        },
        None => None,
    };
    if tokens.len() > 0 || cur is Some {
        seq![ElementModel { position: p, classes: tokens, current: cur }]
    } else {
        Seq::<ElementModel>::empty()
    }
}

/// Appending a record appends its model.
pub proof fn lemma_models_push(els: Seq<ElementInfo>, e: ElementInfo)
    ensures
        models_of(els.push(e)) == models_of(els).push(e@),
{
    assert(models_of(els.push(e)) =~= models_of(els).push(e@)) by {
        assert forall|j: int| 0 <= j < els.len() + 1 implies models_of(els.push(e))[j]
            == models_of(els).push(e@)[j] by {
            if j < els.len() {
                assert(els.push(e)[j] == els[j]);
            } else {
                assert(els.push(e)[j] == e);
            }
        }
    }
}

/// Collects the element records of one document in tree order.
pub struct InfoCollector {
    pub elements: Vec<ElementInfo>,
}

impl InfoCollector {
    /// An empty collector.
    pub fn new() -> (r: InfoCollector)
        ensures
            r.elements@.len() == 0,
    {
        InfoCollector { elements: Vec::new() }
    }

    /// Records one element, given its position handle and the values of its
    /// class and identifier attributes. The class value is split on
    /// whitespace, sorted and deduplicated; an element with no class tokens
    /// and no identifier carries no stylesheet obligation and is dropped.
    pub fn visit_element(
        &mut self,
        position: u64,
        class_attr: Option<&str>,
        id_attr: Option<&str>,
    )
        ensures
            models_of(final(self).elements@) == models_of(old(self).elements@)
                + element_extract(position, opt_str_view(class_attr), opt_str_view(id_attr)),
    {
        let ghost pre = models_of(self.elements@);
        let ghost gained = element_extract(
            position,
            opt_str_view(class_attr),
            opt_str_view(id_attr),
        );
        let class_names: Vec<String> = match class_attr {
            Option::Some(v) => {
                let raw = split_whitespace_names(v);
                let mut ns = NameSet::new();
                ns.insert_all(&raw);
                proof {
                    lemma_sort_dedup_names_props(split_ws(v@));
                    assert(ns@ =~= sort_dedup_names(split_ws(v@)).to_set());
                    lemma_sorted_canonical(ns.seq_view(), sort_dedup_names(split_ws(v@)));
                }
                ns.items
            },
            Option::None => Vec::new(),
        };
        proof {
            assert(views_of(class_names@) == match opt_str_view(class_attr) {
                Some(v) => sort_dedup_names(split_ws(v)),
                None => Seq::<Seq<char>>::empty(),
            }) by {
                if class_attr is None {
                    assert(views_of(class_names@) =~= Seq::<Seq<char>>::empty());
                }
            }
        }
        let current_id: Option<String> = match id_attr {
            Option::Some(v) => {
                if !v.is_empty() {
                    Option::Some(v.to_owned())
                } else {
                    Option::None
                }
            },
            Option::None => Option::None,
        };
        if class_names.len() > 0 || current_id.is_some() {
            let e = ElementInfo { position, class_names, current_id };
            let ghost ev = e;
            let ghost prevec = self.elements@;
            self.elements.push(e);
            proof {
                lemma_models_push(prevec, ev);
                assert(gained =~= seq![ev@]);
                assert(models_of(self.elements@) =~= pre + gained);
            }
        } else {
            proof {
                assert(gained =~= Seq::<ElementModel>::empty());
                assert(models_of(self.elements@) =~= pre + gained);
            }
        }
    }
}

/// Tests whether `s` is the trigger class.
fn is_trigger_name(s: &str) -> (r: bool)
    ensures
        r == (s@ == trigger_class()),
{
    proof {
        reveal_strlit("id");
        assert("id"@ =~= trigger_class());
    }
    str_eq(s, "id")
}

/// Derives the base identifier of a class list, or reports that the list
/// does not hold the trigger class.
pub fn compute_base(class_names: &Vec<String>) -> (r: Option<String>)
    ensures
        match r {
            Some(b) => views_of(class_names@).contains(trigger_class()) && b@ == base_id_of_classes(
                views_of(class_names@),
            ),
            None => !views_of(class_names@).contains(trigger_class()),
        },
{
    let ghost cs = views_of(class_names@);
    let n = class_names.len();
    let mut has_trigger = false;
    let mut nt: Vec<String> = Vec::new();
    let mut i: usize = 0;
    while i < n
        invariant
            i <= n,
            n == class_names@.len(),
            cs == views_of(class_names@),
            has_trigger == exists|k: int| 0 <= k < i && cs[k] == trigger_class(),
            views_of(nt@) == non_trigger_upto(cs, i as int),
        decreases n - i,
    {
        let s = &class_names[i];
        if is_trigger_name(s.as_str()) {
            has_trigger = true;
            proof {
                assert(cs[i as int] == trigger_class());
                assert(views_of(nt@) =~= non_trigger_upto(cs, i as int + 1));
            }
        } else {
            let copy = s.clone();
            nt.push(copy);
            proof {
                assert(views_of(nt@) =~= non_trigger_upto(cs, i as int + 1));
            }
        }
        i += 1;
    }
    proof {
        if has_trigger {
            assert(cs.contains(trigger_class()));
        } else {
            if cs.contains(trigger_class()) {
                let k = choose|k: int| 0 <= k < cs.len() && cs[k] == trigger_class();
                assert(false);
            }
        }
    }
    if !has_trigger {
        return None;
    }
    let ghost ntv = non_trigger_classes(cs);
    proof {
        assert(views_of(nt@) == ntv);
    }
    if nt.len() == 0 {
        let mut g = String::new();
        crate::text::push_char(&mut g, 'G');
        proof {
            assert(g@ =~= seq!['G']);
        }
        return Some(g);
    }
    let b = abbrev_of_names(&nt);
    Some(b)
}

/// The short uppercase tag of a list of names: up to five representatives
/// are sampled, their first characters upper-cased, sorted and deduplicated.
pub fn abbrev_of_names(names: &Vec<String>) -> (r: String)
    ensures
        r@ == sort_dedup_chars(initials(sample5(views_of(names@)))),
{
    let ghost nv = views_of(names@);
    let mut sampled: Vec<String> = Vec::new();
    if names.len() > 5 {
        let len = names.len();
        sampled.push(names[0].clone());
        sampled.push(names[1].clone());
        sampled.push(names[len / 2].clone());
        sampled.push(names[len - 2].clone());
        sampled.push(names[len - 1].clone());
        proof {
            assert(views_of(sampled@) =~= sample5(nv));
        }
    } else {
        let mut k: usize = 0;
        while k < names.len()
            invariant
                k <= names@.len(),
                nv == views_of(names@),
                views_of(sampled@) == nv.take(k as int),
            decreases names@.len() - k,
        {
            let c = names[k].clone();
            let ghost cval = c;
            proof {
                assert(cval@ == views_of(names@)[k as int]);
            }
            let ghost pre = sampled@;
            sampled.push(c);
            k += 1;
            proof {
                crate::strset::lemma_views_push(pre, cval);
                assert(views_of(sampled@) == views_of(pre).push(cval@));
                assert(views_of(sampled@) =~= nv.take(k as int));
            }
        }
        proof {
            assert(nv.take(nv.len() as int) =~= nv);
            assert(views_of(sampled@) =~= sample5(nv));
        }
    }
    let ghost sv = sample5(nv);
    // upper-cased first characters
    let mut firsts: Vec<char> = Vec::new();
    let mut k: usize = 0;
    while k < sampled.len()
        invariant
            k <= sampled@.len(),
            views_of(sampled@) == sv,
            firsts@ == initials_upto(sv, k as int),
        decreases sampled@.len() - k,
    {
        let s = &sampled[k];
        if !s.as_str().is_empty() {
            let c = s.as_str().get_char(0);
            let u = to_upper(c);
            firsts.push(u);
            proof {
                assert(firsts@ =~= initials_upto(sv, k as int + 1));
            }
        } else {
            proof {
                assert(firsts@ =~= initials_upto(sv, k as int + 1));
            }
        }
        k += 1;
    }
    proof {
        assert(firsts@ == initials(sv));
    }
    let sorted = sort_dedup(&firsts);
    chars_to_string(&sorted)
}

/// A pending identifier mutation: the element at `position` is to get
/// `new_identifier`.
pub struct IdUpdate {
    pub position: u64,
    pub new_identifier: String,
}

/// The position/identifier pairs of a vector of updates.
pub open spec fn updates_view(us: Seq<IdUpdate>) -> Seq<(u64, Seq<char>)> {
    us.map_values(|u: IdUpdate| (u.position, u.new_identifier@))
}

/// Appending an update appends its pair to the view.
pub proof fn lemma_updates_push(us: Seq<IdUpdate>, u: IdUpdate)
    ensures
        updates_view(us.push(u)) == updates_view(us).push((u.position, u.new_identifier@)),
{
    assert(updates_view(us.push(u)) =~= updates_view(us).push((u.position, u.new_identifier@)))
        by {
        assert forall|j: int| 0 <= j < us.len() + 1 implies updates_view(us.push(u))[j]
            == updates_view(us).push((u.position, u.new_identifier@))[j] by {
            if j < us.len() {
                assert(us.push(u)[j] == us[j]);
            } else {
                assert(us.push(u)[j] == u);
            }
        }
    }
}

/// The models of the element records, pointwise.
pub proof fn lemma_models_index(els: Seq<ElementInfo>)
    ensures
        models_of(els).len() == els.len(),
        forall|i: int| 0 <= i < els.len() ==> #[trigger] models_of(els)[i] == els[i]@,
{
}

/// Whether a stored optional base string matches an element's model.
pub open spec fn base_matches(m: ElementModel, bo: Option<String>) -> bool {
    match bo {
        Some(b) => is_managed(m) && b@ == base_id_of(m),
        None => !is_managed(m),
    }
}

/// Resolves one document's element records: reports the set of all class
/// names, the set of all final identifiers, and the pending identifier
/// updates in encounter order.
pub fn resolve_entities(elements: &Vec<ElementInfo>) -> (r: (NameSet, NameSet, Vec<IdUpdate>))
    ensures
        r.0.wf(),
        r.0@ == class_set_of(models_of(elements@)),
        r.1.wf(),
        r.1@ == id_set_of(models_of(elements@)),
        updates_view(r.2@) == updates_of(models_of(elements@)),
{
    let ghost ms = models_of(elements@);
    proof {
        lemma_models_index(elements@);
    }
    let n = elements.len();

    // First pass: the base identifier of every managed element.
    let mut bases: Vec<Option<String>> = Vec::new();
    let mut i: usize = 0;
    while i < n
        invariant
            i <= n,
            n == elements@.len(),
            ms == models_of(elements@),
            bases@.len() == i,
            forall|j: int| 0 <= j < i ==> base_matches(ms[j], #[trigger] bases@[j]),
        decreases n - i,
    {
        proof {
            lemma_models_index(elements@);
        }
        let b = compute_base(&elements[i].class_names);
        proof {
            assert(ms[i as int] == elements@[i as int]@);
            assert(ms[i as int].classes == views_of(elements@[i as int].class_names@));
        }
        bases.push(b);
        i += 1;
    }

    // Second pass: collect classes, identifiers and updates.
    let mut classes = NameSet::new();
    let mut ids = NameSet::new();
    let mut updates: Vec<IdUpdate> = Vec::new();
    let mut i: usize = 0;
    proof {
        assert(updates_view(updates@) =~= updates_upto(ms, 0));
        assert(classes@ =~= class_set_upto(ms, 0));
        assert(ids@ =~= id_set_upto(ms, 0));
    }
    while i < n
        invariant
            i <= n,
            n == elements@.len(),
            ms == models_of(elements@),
            bases@.len() == n,
            forall|j: int| 0 <= j < n ==> base_matches(ms[j], #[trigger] bases@[j]),
            classes.wf(),
            classes@ == class_set_upto(ms, i as int),
            ids.wf(),
            ids@ == id_set_upto(ms, i as int),
            updates_view(updates@) == updates_upto(ms, i as int),
        decreases n - i,
    {
        proof {
            lemma_models_index(elements@);
            assert(ms[i as int] == elements@[i as int]@);
        }
        classes.insert_all(&elements[i].class_names);
        proof {
            assert(ms[i as int].classes == views_of(elements@[i as int].class_names@));
            assert(classes@ =~= class_set_upto(ms, i as int + 1));
        }
        let bo = &bases[i];
        match bo {
            Option::None => {
                match &elements[i].current_id {
                    Option::Some(cur) => {
                        let ghost pre = ids@;
                        ids.insert(cur.clone());
                        proof {
                            assert(ms[i as int].current == Some(cur@));
                            assert(ids@ =~= id_set_upto(ms, i as int + 1));
                        }
                    },
                    Option::None => {
                        proof {
                            assert(ms[i as int].current is None);
                            assert(id_contrib(ms, i as int) =~= Set::<Seq<char>>::empty());
                            assert(ids@ =~= id_set_upto(ms, i as int + 1));
                        }
                    },
                }
                proof {
                    assert(!needs_update(ms, i as int));
                    assert(updates_view(updates@) =~= updates_upto(ms, i as int + 1));
                }
            },
            Option::Some(b) => {
                let ghost bview = b@;
                proof {
                    assert(is_managed(ms[i as int]));
                    assert(bview == base_id_of(ms[i as int]));
                }
                // the size of this element's collision group
                let mut total: usize = 0;
                let mut j: usize = 0;
                while j < n
                    invariant
                        j <= n,
                        n == elements@.len(),
                        ms == models_of(elements@),
                        bases@.len() == n,
                        forall|k: int| 0 <= k < n ==> base_matches(ms[k], #[trigger] bases@[k]),
                        total <= j,
                        total as int == group_count_upto(ms, bview, j as int),
                        bview == b@,
                    decreases n - j,
                {
                    match &bases[j] {
                        Option::Some(bj) => {
                            if str_eq(bj.as_str(), b.as_str()) {
                                total += 1;
                            }
                        },
                        Option::None => {},
                    }
                    j += 1;
                }
                // this element's rank among its group, in encounter order
                let mut before: usize = 0;
                let mut j: usize = 0;
                while j < i
                    invariant
                        j <= i <= n,
                        n == elements@.len(),
                        ms == models_of(elements@),
                        bases@.len() == n,
                        forall|k: int| 0 <= k < n ==> base_matches(ms[k], #[trigger] bases@[k]),
                        before <= j,
                        before as int == group_count_upto(ms, bview, j as int),
                        bview == b@,
                    decreases i - j,
                {
                    match &bases[j] {
                        Option::Some(bj) => {
                            if str_eq(bj.as_str(), b.as_str()) {
                                before += 1;
                            }
                        },
                        Option::None => {},
                    }
                    j += 1;
                }
                let fid: String = if total == 1 {
                    b.clone()
                } else {
                    let mut f = b.clone();
                    push_dec(&mut f, before as u64 + 1);
                    f
                };
                proof {
                    assert(group_size(ms, bview) == total as int);
                    assert(group_count_upto(ms, bview, i as int) == before as int);
                    assert(fid@ == final_id_at(ms, i as int));
                }
                ids.insert(fid.clone());
                proof {
                    assert(id_contrib(ms, i as int) =~= set![final_id_at(ms, i as int)]);
                    assert(ids@ =~= id_set_upto(ms, i as int + 1));
                }
                let differs: bool = match &elements[i].current_id {
                    Option::Some(cur) => !str_eq(cur.as_str(), fid.as_str()),
                    Option::None => true,
                };
                proof {
                    assert(differs == needs_update(ms, i as int));
                }
                if differs {
                    let ghost pre = updates@;
                    let u = IdUpdate { position: elements[i].position, new_identifier: fid };
                    let ghost uval = u;
                    updates.push(u);
                    proof {
                        lemma_updates_push(pre, uval);
                        assert(uval.position == ms[i as int].position);
                        assert(uval.new_identifier@ == final_id_at(ms, i as int));
                        assert(updates_view(updates@) =~= updates_upto(ms, i as int + 1));
                    }
                } else {
                    proof {
                        assert(updates_view(updates@) =~= updates_upto(ms, i as int + 1));
                    }
                }
            },
        }
        i += 1;
    }
    proof {
        assert(class_set_upto(ms, n as int) == class_set_of(ms));
        assert(id_set_upto(ms, n as int) == id_set_of(ms));
        assert(updates_upto(ms, n as int) == updates_of(ms));
    }
    (classes, ids, updates)
}

/// A per-position replacement class list produced by the grouped-class
/// expander.
pub struct PosClasses {
    pub position: u64,
    pub class_names: Vec<String>,
}

/// The position/class-list pairs of a vector of replacements.
pub open spec fn overrides_view(ov: Seq<PosClasses>) -> Seq<(u64, Seq<Seq<char>>)> {
    ov.map_values(|o: PosClasses| (o.position, views_of(o.class_names@)))
}

/// The first replacement recorded for position `p`, if any.
pub open spec fn override_lookup(ov: Seq<(u64, Seq<Seq<char>>)>, p: u64) -> Option<Seq<Seq<char>>>
    decreases ov.len(),
{
    if ov.len() == 0 {
        None
    } else if ov[0].0 == p {
        Some(ov[0].1)
    } else {
        override_lookup(ov.drop_first(), p)
    }
}

/// Each element with its class list replaced by the one recorded for its
/// position, when there is one.
pub open spec fn resolve_overrides(
    ms: Seq<ElementModel>,
    ov: Seq<(u64, Seq<Seq<char>>)>,
) -> Seq<ElementModel> {
    Seq::new(
        ms.len(),
        |i: int|
            match override_lookup(ov, ms[i].position) {
                Some(cs) => ElementModel { position: ms[i].position, classes: cs, current: ms[i].current },
                None => ms[i],
            },
    )
}

/// Finds the first replacement class list recorded for `p`.
fn find_override<'a>(overrides: &'a Vec<PosClasses>, p: u64) -> (r: Option<&'a Vec<String>>)
    ensures
        match r {
            Some(cs) => override_lookup(overrides_view(overrides@), p) == Some(views_of(cs@)),
            None => override_lookup(overrides_view(overrides@), p) is None,
        },
{
    let ghost ovv = overrides_view(overrides@);
    let mut i: usize = 0;
    proof {
        assert(ovv.skip(0) =~= ovv);
    }
    while i < overrides.len()
        invariant
            i <= overrides@.len(),
            ovv == overrides_view(overrides@),
            override_lookup(ovv, p) == override_lookup(ovv.skip(i as int), p),
        decreases overrides@.len() - i,
    {
        if overrides[i].position == p {
            proof {
                assert(ovv.skip(i as int)[0] == ovv[i as int]);
                assert(ovv[i as int] == (overrides@[i as int].position, views_of(
                    overrides@[i as int].class_names@,
                )));
            }
            return Some(&overrides[i].class_names);
        }
        i += 1;
        proof {
            assert(ovv.skip(i as int - 1)[0] == ovv[i as int - 1]);
            assert(ovv.skip(i as int - 1).drop_first() =~= ovv.skip(i as int));
        }
    }
    proof {
        assert(ovv.skip(overrides@.len() as int).len() == 0);
    }
    None
}

/// Resolves one document after substituting expander-resolved class lists:
/// every element whose position has a recorded replacement is treated as
/// carrying that class list. Reports the class set, identifier set and
/// pending updates of the substituted document.
pub fn determine_css_entities_and_updates(
    elements: &Vec<ElementInfo>,
    resolved_classes: &Vec<PosClasses>,
) -> (r: (NameSet, NameSet, Vec<IdUpdate>))
    ensures
        ({
            let ms = resolve_overrides(
                models_of(elements@),
                overrides_view(resolved_classes@),
            );
            r.0.wf() && r.0@ == class_set_of(ms) && r.1.wf() && r.1@ == id_set_of(ms)
                && updates_view(r.2@) == updates_of(ms)
        }),
{
    let ghost ms0 = models_of(elements@);
    let ghost ovv = overrides_view(resolved_classes@);
    let ghost target = resolve_overrides(ms0, ovv);
    proof {
        lemma_models_index(elements@);
    }
    let n = elements.len();
    let mut resolved: Vec<ElementInfo> = Vec::new();
    let mut i: usize = 0;
    while i < n
        invariant
            i <= n,
            n == elements@.len(),
            ms0 == models_of(elements@),
            ovv == overrides_view(resolved_classes@),
            target == resolve_overrides(ms0, ovv),
            resolved@.len() == i,
            forall|j: int| 0 <= j < i ==> (#[trigger] resolved@[j])@ == target[j],
        decreases n - i,
    {
        proof {
            lemma_models_index(elements@);
            assert(ms0[i as int] == elements@[i as int]@);
        }
        let e = &elements[i];
        let position = e.position;
        let current_id: Option<String> = match &e.current_id {
            Option::Some(s) => Option::Some(s.clone()),
            Option::None => Option::None,
        };
        let class_names: Vec<String> = match find_override(resolved_classes, position) {
            Option::Some(cs) => {
                let copy = cs.clone();
                proof {
                    assert(views_of(copy@) =~= views_of(cs@)) by {
                        assert(forall|k: int|
                            0 <= k < cs@.len() ==> cloned::<String>(
                                cs@[k],
                                #[trigger] copy@[k],
                            ));
                    }
                }
                copy
            },
            Option::None => {
                let copy = e.class_names.clone();
                proof {
                    assert(views_of(copy@) =~= views_of(e.class_names@)) by {
                        assert(forall|k: int|
                            0 <= k < e.class_names@.len() ==> cloned::<String>(
                                e.class_names@[k],
                                #[trigger] copy@[k],
                            ));
                    }
                }
                copy
            },
        };
        let ne = ElementInfo { position, class_names, current_id };
        proof {
            assert(ne@ == target[i as int]);
        }
        resolved.push(ne);
        i += 1;
    }
    proof {
        assert(models_of(resolved@) =~= target) by {
            lemma_models_index(resolved@);
        }
    }
    resolve_entities(&resolved)
}

/// The first new identifier recorded for position `p`, if any.
pub open spec fn update_lookup(us: Seq<(u64, Seq<char>)>, p: u64) -> Option<Seq<char>>
    decreases us.len(),
{
    if us.len() == 0 {
        None
    } else if us[0].0 == p {
        Some(us[0].1)
    } else {
        update_lookup(us.drop_first(), p)
    }
}

/// Applies pending identifier updates to one document's element records.
pub struct IdApplier {
    pub id_map: Vec<IdUpdate>,
}

impl IdApplier {
    /// The identifier to write at position `p`, if the map holds one.
    pub fn new_id_for<'a>(&'a self, p: u64) -> (r: Option<&'a String>)
        ensures
            match r {
                Some(s) => update_lookup(updates_view(self.id_map@), p) == Some(s@),
                None => update_lookup(updates_view(self.id_map@), p) is None,
            },
    {
        let ghost uv = updates_view(self.id_map@);
        let mut i: usize = 0;
        proof {
            assert(uv.skip(0) =~= uv);
        }
        while i < self.id_map.len()
            invariant
                i <= self.id_map@.len(),
                uv == updates_view(self.id_map@),
                update_lookup(uv, p) == update_lookup(uv.skip(i as int), p),
            decreases self.id_map@.len() - i,
        {
            if self.id_map[i].position == p {
                proof {
                    assert(uv.skip(i as int)[0] == uv[i as int]);
                }
                return Some(&self.id_map[i].new_identifier);
            }
            i += 1;
            proof {
                assert(uv.skip(i as int - 1)[0] == uv[i as int - 1]);
                assert(uv.skip(i as int - 1).drop_first() =~= uv.skip(i as int));
            }
        }
        proof {
            assert(uv.skip(self.id_map@.len() as int).len() == 0);
        }
        None
    }
}

/// Each element with its current identifier replaced by the update recorded
/// for its position, when there is one.
pub open spec fn apply_updates_model(
    ms: Seq<ElementModel>,
    us: Seq<(u64, Seq<char>)>,
) -> Seq<ElementModel> {
    Seq::new(
        ms.len(),
        |i: int|
            match update_lookup(us, ms[i].position) {
                Some(id) => ElementModel {
                    position: ms[i].position,
                    classes: ms[i].classes,
                    current: Some(id),
                },
                None => ms[i],
            },
    )
}

/// Writes the pending updates back onto the element records, leaving class
/// lists and untouched elements as they are. With an empty update map the
/// document is returned unchanged.
pub fn apply_updates(elements: &Vec<ElementInfo>, applier: &IdApplier) -> (r: Vec<ElementInfo>)
    ensures
        models_of(r@) == apply_updates_model(
            models_of(elements@),
            updates_view(applier.id_map@),
        ),
{
    let ghost ms = models_of(elements@);
    let ghost uv = updates_view(applier.id_map@);
    let ghost target = apply_updates_model(ms, uv);
    proof {
        lemma_models_index(elements@);
    }
    let n = elements.len();
    let mut out: Vec<ElementInfo> = Vec::new();
    let mut i: usize = 0;
    while i < n
        invariant
            i <= n,
            n == elements@.len(),
            ms == models_of(elements@),
            uv == updates_view(applier.id_map@),
            target == apply_updates_model(ms, uv),
            out@.len() == i,
            forall|j: int| 0 <= j < i ==> (#[trigger] out@[j])@ == target[j],
        decreases n - i,
    {
        proof {
            lemma_models_index(elements@);
            assert(ms[i as int] == elements@[i as int]@);
        }
        let e = &elements[i];
        let position = e.position;
        let class_names = e.class_names.clone();
        proof {
            assert(views_of(class_names@) =~= views_of(e.class_names@)) by {
                assert(forall|k: int|
                    0 <= k < e.class_names@.len() ==> cloned::<String>(
                        e.class_names@[k],
                        #[trigger] class_names@[k],
                    ));
            }
        }
        let current_id: Option<String> = match applier.new_id_for(position) {
            Option::Some(id) => Option::Some(id.clone()),
            Option::None => {
                match &e.current_id {
                    Option::Some(s) => Option::Some(s.clone()),
                    Option::None => Option::None,
                }
            },
        };
        let ne = ElementInfo { position, class_names, current_id };
        proof {
            assert(ne@ == target[i as int]);
        }
        out.push(ne);
        i += 1;
    }
    proof {
        assert(models_of(out@) =~= target) by {
            lemma_models_index(out@);
        }
    }
    out
}

} // verus!
