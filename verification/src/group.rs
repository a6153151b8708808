//! Grouped-class expansion. A class attribute value may hold the compact
//! notation `prefix(a+b+c)`: the literal classes `a`, `b`, `c` abbreviated
//! in place. Every such group is rewritten to `name(TAG+)` where `name` is
//! the prefix (or a fresh `_N` when the prefix is empty) and `TAG` is the
//! short uppercase tag of the group's classes; a variable binding
//! `name = "a b c"` is synthesized, and the expanded classes plus the
//! remaining plain classes of the attribute are recorded per position.

use vstd::prelude::*;

use crate::id::{
    abbrev_of_names, initials, overrides_view, sample5, split_whitespace_names, split_ws,
    PosClasses,
};
use crate::strset::{lemma_views_push, views_of};
use crate::text::{
    chars_to_string, dec_seq, is_space, is_space_char, is_word_char, is_word_char_spec, push_char,
    push_dec, sort_dedup_chars,
};

verus! {

/// A name trimmed of trailing whitespace.
pub open spec fn trim_back_ws(t: Seq<char>) -> Seq<char>
    decreases t.len(),
{
    if t.len() > 0 && is_space_char(t.last()) {
        trim_back_ws(t.drop_last())
    } else {
        t
    }
}

/// A name trimmed of leading whitespace.
pub open spec fn trim_front_ws(t: Seq<char>) -> Seq<char>
    decreases t.len(),
{
    if t.len() > 0 && is_space_char(t.first()) {
        trim_front_ws(t.drop_first())
    } else {
        t
    }
}

/// A name trimmed of whitespace on both ends.
pub open spec fn trim_ws(t: Seq<char>) -> Seq<char> {
    trim_front_ws(trim_back_ws(t))
}

/// A group interior trimmed of trailing `+` separators.
pub open spec fn trim_plus_end(t: Seq<char>) -> Seq<char>
    decreases t.len(),
{
    if t.len() > 0 && t.last() == '+' {
        trim_plus_end(t.drop_last())
    } else {
        t
    }
}

/// Appends the trimmed segment, dropping it when blank.
pub open spec fn push_trimmed(acc: Seq<Seq<char>>, cur: Seq<char>) -> Seq<Seq<char>> {
    if trim_ws(cur).len() > 0 {
        acc.push(trim_ws(cur))
    } else {
        acc
    }
}

/// One step of `+`-splitting, from index `i` on with segment `cur` gathered.
pub open spec fn plus_split_go(
    s: Seq<char>,
    i: int,
    cur: Seq<char>,
    acc: Seq<Seq<char>>,
) -> Seq<Seq<char>>
    decreases s.len() - i,
{
    if i < 0 || i >= s.len() {
        push_trimmed(acc, cur)
    } else if s[i] == '+' {
        plus_split_go(s, i + 1, Seq::<char>::empty(), push_trimmed(acc, cur))
    } else {
        plus_split_go(s, i + 1, cur.push(s[i]), acc)
    }
}

/// The segments of a group interior: split on `+`, each trimmed of
/// whitespace, blanks dropped.
pub open spec fn plus_split(s: Seq<char>) -> Seq<Seq<char>> {
    plus_split_go(s, 0, Seq::<char>::empty(), Seq::<Seq<char>>::empty())
}

/// The names joined with single spaces.
pub open spec fn join_space(cs: Seq<Seq<char>>) -> Seq<char>
    decreases cs.len(),
{
    if cs.len() == 0 {
        Seq::<char>::empty()
    } else if cs.len() == 1 {
        cs[0]
    } else {
        join_space(cs.drop_last()) + seq![' '] + cs.last()
    }
}

/// The short uppercase tag of a group's classes.
pub open spec fn abbrev_spec(cs: Seq<Seq<char>>) -> Seq<char> {
    sort_dedup_chars(initials(sample5(cs)))
}

/// The index of the first `)` at or after `i`, or the length when none.
pub open spec fn find_close(s: Seq<char>, i: int) -> int
    decreases s.len() - i,
{
    if i < 0 || i >= s.len() {
        s.len() as int
    } else if s[i] == ')' {
        i
    } else {
        find_close(s, i + 1)
    }
}

proof fn lemma_find_close(s: Seq<char>, i: int)
    requires
        0 <= i <= s.len(),
    ensures
        i <= find_close(s, i) <= s.len(),
        find_close(s, i) < s.len() ==> s[find_close(s, i)] == ')',
        forall|k: int| i <= k < find_close(s, i) ==> s[k] != ')',
    decreases s.len() - i,
{
    if i < s.len() && s[i] != ')' {
        lemma_find_close(s, i + 1);
    }
}

/// A group starting with the `(` at index `i` is well formed: a `)` follows
/// and the interior between them is not empty.
pub open spec fn match_ok(s: Seq<char>, i: int) -> bool {
    let c = find_close(s, i + 1);
    c < s.len() && c > i + 1
}

/// The running result of one scan of an attribute value: the rewritten
/// text, the text outside every group, the synthesized bindings, the
/// expanded classes, and the fresh-name counter.
pub struct GroupScan {
    pub rewritten: Seq<char>,
    pub removed: Seq<char>,
    pub bindings: Seq<(Seq<char>, Seq<char>)>,
    pub classes: Seq<Seq<char>>,
    pub counter: int,
}

/// Scans the attribute value from index `i` on, with `pending` the word run
/// gathered so far (a possible group prefix) and `acc` the result so far.
/// A well-formed group is replaced by `name(TAG+)`; all other text is kept,
/// and also gathered into `removed`, the text outside every group.
pub open spec fn scan_from(s: Seq<char>, i: int, pending: Seq<char>, acc: GroupScan) -> GroupScan
    decreases s.len() - i,
    via scan_from_decreases
{
    if i < 0 || i >= s.len() {
        GroupScan {
            rewritten: acc.rewritten + pending,
            removed: acc.removed + pending,
            bindings: acc.bindings,
            classes: acc.classes,
            counter: acc.counter,
        }
    } else if is_word_char_spec(s[i]) {
        scan_from(s, i + 1, pending.push(s[i]), acc)
    } else if s[i] == '(' && match_ok(s, i) {
        let close = find_close(s, i + 1);
        let gclasses = plus_split(trim_plus_end(s.subrange(i + 1, close)));
        let named = pending.len() > 0;
        let name = if named {
            pending
        } else {
            seq!['_'] + dec_seq((acc.counter + 1) as nat)
        };
        let acc2 = GroupScan {
            rewritten: acc.rewritten + name + seq!['('] + abbrev_spec(gclasses) + seq!['+', ')'],
            removed: acc.removed,
            bindings: acc.bindings.push((name, join_space(gclasses))),
            classes: acc.classes + gclasses,
            counter: if named {
                acc.counter
            } else {
                acc.counter + 1
            },
        };
        scan_from(s, close + 1, Seq::<char>::empty(), acc2)
    } else {
        let acc2 = GroupScan {
            rewritten: acc.rewritten + pending.push(s[i]),
            removed: acc.removed + pending.push(s[i]),
            bindings: acc.bindings,
            classes: acc.classes,
            counter: acc.counter,
        };
        scan_from(s, i + 1, Seq::<char>::empty(), acc2)
    }
}

#[via_fn]
proof fn scan_from_decreases(s: Seq<char>, i: int, pending: Seq<char>, acc: GroupScan) {
    if 0 <= i && i < s.len() && !is_word_char_spec(s[i]) && s[i] == '(' && match_ok(s, i) {
        lemma_find_close(s, i + 1);
    }
}

/// The scan of a whole attribute value, starting from counter `counter0`.
pub open spec fn scan_value(s: Seq<char>, counter0: int) -> GroupScan {
    scan_from(
        s,
        0,
        Seq::<char>::empty(),
        GroupScan {
            rewritten: Seq::<char>::empty(),
            removed: Seq::<char>::empty(),
            bindings: Seq::<(Seq<char>, Seq<char>)>::empty(),
            classes: Seq::<Seq<char>>::empty(),
            counter: counter0,
        },
    )
}

/// The classes an attribute resolves to after expansion: every group's
/// classes in order, then the plain whitespace-delimited classes of the
/// text outside the groups.
pub open spec fn resolved_of(sc: GroupScan) -> Seq<Seq<char>> {
    sc.classes + split_ws(sc.removed)
}

/// A synthesized variable binding: `name` bound to the space-joined class
/// list of one group.
pub struct Binding {
    pub name: String,
    pub value: String,
}

/// The name/value pairs of a vector of bindings.
pub open spec fn bindings_view(bs: Seq<Binding>) -> Seq<(Seq<char>, Seq<char>)> {
    bs.map_values(|b: Binding| (b.name@, b.value@))
}

proof fn lemma_bindings_push(bs: Seq<Binding>, b: Binding)
    ensures
        bindings_view(bs.push(b)) == bindings_view(bs).push((b.name@, b.value@)),
{
    assert(bindings_view(bs.push(b)) =~= bindings_view(bs).push((b.name@, b.value@))) by {
        assert forall|j: int| 0 <= j < bs.len() + 1 implies bindings_view(bs.push(b))[j]
            == bindings_view(bs).push((b.name@, b.value@))[j] by {
            if j < bs.len() {
                assert(bs.push(b)[j] == bs[j]);
            } else {
                assert(bs.push(b)[j] == b);
            }
        }
    }
}

proof fn lemma_overrides_push(ov: Seq<PosClasses>, o: PosClasses)
    ensures
        overrides_view(ov.push(o)) == overrides_view(ov).push(
            (o.position, views_of(o.class_names@)),
        ),
{
    assert(overrides_view(ov.push(o)) =~= overrides_view(ov).push(
        (o.position, views_of(o.class_names@)),
    )) by {
        assert forall|j: int| 0 <= j < ov.len() + 1 implies overrides_view(ov.push(o))[j]
            == overrides_view(ov).push((o.position, views_of(o.class_names@)))[j] by {
            if j < ov.len() {
                assert(ov.push(o)[j] == ov[j]);
            } else {
                assert(ov.push(o)[j] == o);
            }
        }
    }
}

/// Splits a group interior on `+`, trimming each segment of whitespace and
/// dropping blanks.
fn plus_split_exec(s: &str) -> (r: Vec<String>)
    ensures
        views_of(r@) == plus_split(s@),
{
    let len = s.unicode_len();
    let mut acc: Vec<String> = Vec::new();
    let mut cur: Vec<char> = Vec::new();
    let mut i: usize = 0;
    proof {
        assert(views_of(acc@) =~= Seq::<Seq<char>>::empty());
        assert(cur@ =~= Seq::<char>::empty());
    }
    while i < len
        invariant
            i <= len,
            len == s@.len(),
            plus_split_go(s@, i as int, cur@, views_of(acc@)) == plus_split(s@),
        decreases len - i,
    {
        let c = s.get_char(i);
        if c == '+' {
            push_token(&mut acc, &cur);
            cur = Vec::new();
            proof {
                assert(cur@ =~= Seq::<char>::empty());
            }
        } else {
            cur.push(c);
        }
        i += 1;
    }
    push_token(&mut acc, &cur);
    acc
}

/// Appends the trimmed segment to the token list, dropping it when blank.
fn push_token(acc: &mut Vec<String>, cur: &Vec<char>)
    ensures
        views_of(final(acc)@) == push_trimmed(views_of(old(acc)@), cur@),
{
    // trim trailing whitespace
    let mut b: usize = cur.len();
    proof {
        assert(cur@.take(b as int) =~= cur@);
    }
    while b > 0 && is_space(cur[b - 1])
        invariant
            b <= cur@.len(),
            trim_back_ws(cur@) == trim_back_ws(cur@.take(b as int)),
        decreases b,
    {
        proof {
            assert(cur@.take(b as int).last() == cur@[b as int - 1]);
            assert(cur@.take(b as int).drop_last() =~= cur@.take(b as int - 1));
        }
        b -= 1;
    }
    proof {
        assert(cur@.take(cur@.len() as int) =~= cur@);
        if b > 0 {
            assert(cur@.take(b as int).last() == cur@[b as int - 1]);
        }
        assert(trim_back_ws(cur@) == cur@.take(b as int));
    }
    // trim leading whitespace
    let mut f: usize = 0;
    while f < b && is_space(cur[f])
        invariant
            f <= b <= cur@.len(),
            trim_back_ws(cur@) == cur@.take(b as int),
            trim_ws(cur@) == trim_front_ws(cur@.subrange(f as int, b as int)),
        decreases b - f,
    {
        proof {
            assert(cur@.subrange(f as int, b as int).first() == cur@[f as int]);
            assert(cur@.subrange(f as int, b as int).drop_first() =~= cur@.subrange(
                f as int + 1,
                b as int,
            ));
        }
        f += 1;
    }
    proof {
        if f < b {
            assert(cur@.subrange(f as int, b as int).first() == cur@[f as int]);
        }
        assert(trim_ws(cur@) == cur@.subrange(f as int, b as int));
    }
    if f == b {
        proof {
            assert(trim_ws(cur@).len() == 0);
            assert(views_of(final(acc)@) == push_trimmed(views_of(old(acc)@), cur@));
        }
        return ;
    }
    let mut tok: Vec<char> = Vec::new();
    let mut k: usize = f;
    while k < b
        invariant
            f <= k <= b <= cur@.len(),
            tok@ == cur@.subrange(f as int, k as int),
        decreases b - k,
    {
        tok.push(cur[k]);
        k += 1;
        proof {
            assert(cur@.subrange(f as int, k as int) =~= cur@.subrange(
                f as int,
                k as int - 1,
            ).push(cur@[k as int - 1]));
        }
    }
    let t = chars_to_string(&tok);
    let ghost tval = t;
    let ghost pre = acc@;
    acc.push(t);
    proof {
        lemma_views_push(pre, tval);
        assert(trim_ws(cur@).len() > 0);
        assert(views_of(acc@) == push_trimmed(views_of(pre), cur@));
    }
}

/// Joins names with single spaces.
fn join_space_exec(names: &Vec<String>) -> (r: String)
    ensures
        r@ == join_space(views_of(names@)),
{
    let ghost nv = views_of(names@);
    let mut r = String::new();
    let mut k: usize = 0;
    proof {
        assert(r@ =~= Seq::<char>::empty());
        assert(nv.take(0) =~= Seq::<Seq<char>>::empty());
    }
    while k < names.len()
        invariant
            k <= names@.len(),
            nv == views_of(names@),
            r@ == join_space(nv.take(k as int)),
        decreases names@.len() - k,
    {
        if k > 0 {
            push_char(&mut r, ' ');
        }
        r.append(names[k].as_str());
        k += 1;
        proof {
            let t = nv.take(k as int);
            assert(t.last() == nv[k as int - 1]);
            assert(t.drop_last() =~= nv.take(k as int - 1));
            if k == 1 {
                assert(join_space(t) == t[0]);
                assert(r@ =~= join_space(t));
            } else {
                assert(join_space(t) == join_space(nv.take(k as int - 1)) + seq![' ']
                    + nv[k as int - 1]);
                assert(r@ =~= join_space(t));
            }
        }
    }
    proof {
        assert(nv.take(nv.len() as int) =~= nv);
    }
    r
}

proof fn lemma_bindings_concat(a: Seq<Binding>, b: Seq<Binding>)
    ensures
        bindings_view(a + b) == bindings_view(a) + bindings_view(b),
{
    assert(bindings_view(a + b) =~= bindings_view(a) + bindings_view(b)) by {
        assert forall|j: int| 0 <= j < a.len() + b.len() implies bindings_view(a + b)[j] == (
        bindings_view(a) + bindings_view(b))[j] by {
            if j < a.len() {
                assert((a + b)[j] == a[j]);
            } else {
                assert((a + b)[j] == b[j - a.len()]);
            }
        }
    }
}

/// Finds the first `)` at or after `from`, or the length when none.
fn find_close_exec(s: &str, from: usize) -> (r: usize)
    requires
        from as int <= s@.len(),
    ensures
        r as int == find_close(s@, from as int),
        r <= s@.len(),
{
    let len = s.unicode_len();
    let mut j: usize = from;
    while j < len
        invariant
            from <= j <= len,
            len == s@.len(),
            find_close(s@, from as int) == find_close(s@, j as int),
        decreases len - j,
    {
        if s.get_char(j) == ')' {
            return j;
        }
        j += 1;
    }
    len
}

/// The length of a group interior once trailing `+` separators are removed.
fn trim_plus_len(s: &str) -> (r: usize)
    ensures
        r <= s@.len(),
        trim_plus_end(s@) == s@.take(r as int),
{
    let mut t: usize = s.unicode_len();
    proof {
        assert(s@.take(t as int) =~= s@);
    }
    while t > 0 && s.get_char(t - 1) == '+'
        invariant
            t <= s@.len(),
            trim_plus_end(s@) == trim_plus_end(s@.take(t as int)),
        decreases t,
    {
        proof {
            assert(s@.take(t as int).last() == s@[t as int - 1]);
            assert(s@.take(t as int).drop_last() =~= s@.take(t as int - 1));
        }
        t -= 1;
    }
    proof {
        if t > 0 {
            assert(s@.take(t as int).last() == s@[t as int - 1]);
        }
        assert(trim_plus_end(s@.take(t as int)) == s@.take(t as int));
    }
    t
}

/// Expands grouped-class notation across one document: rewrites class
/// attribute values, synthesizes variable bindings, and records the
/// resolved class list of every rewritten attribute.
pub struct GroupTransformer {
    pub serializer_count: u64,
    pub new_vars: Vec<Binding>,
    pub resolved_classes: Vec<PosClasses>,
}

impl GroupTransformer {
    /// A fresh transformer: counter at zero, nothing recorded.
    pub fn new() -> (r: GroupTransformer)
        ensures
            r.serializer_count == 0,
            r.new_vars@.len() == 0,
            r.resolved_classes@.len() == 0,
    {
        GroupTransformer {
            serializer_count: 0,
            new_vars: Vec::new(),
            resolved_classes: Vec::new(),
        }
    }

    /// The short uppercase tag of one group interior: its `+`-separated
    /// classes sampled, first letters upper-cased, sorted, deduplicated.
    fn get_abbreviated(&self, classes_str: &str) -> (r: String)
        ensures
            r@ == abbrev_spec(plus_split(classes_str@)),
    {
        let classes = plus_split_exec(classes_str);
        abbrev_of_names(&classes)
    }

    /// Processes one class attribute value. When the value holds at least
    /// one well-formed group, returns the rewritten value; the synthesized
    /// bindings are gathered, the fresh-name counter advanced, and the
    /// attribute's resolved class list recorded under `position`. A value
    /// with no group is left untouched and nothing is recorded.
    pub fn visit_class_attr(&mut self, position: u64, value: &str) -> (r: Option<String>)
        requires
            old(self).serializer_count as int + value@.len() as int <= u64::MAX as int,
        ensures
            ({
                let sc = scan_value(value@, old(self).serializer_count as int);
                match r {
                    Some(t) => {
                        &&& sc.bindings.len() > 0
                        &&& t@ == sc.rewritten
                        &&& final(self).serializer_count as int == sc.counter
                        &&& bindings_view(final(self).new_vars@) == bindings_view(
                            old(self).new_vars@,
                        ) + sc.bindings
                        &&& overrides_view(final(self).resolved_classes@) == overrides_view(
                            old(self).resolved_classes@,
                        ).push((position, resolved_of(sc)))
                    },
                    None => sc.bindings.len() == 0 && *final(self) == *old(self),
                }
            }),
    {
        let ghost sv = value@;
        let ghost cnt0 = old(self).serializer_count as int;
        let ghost total = scan_value(sv, cnt0);
        let len = value.unicode_len();
        let mut out = String::new();
        let mut removed: Vec<char> = Vec::new();
        let mut nb: Vec<Binding> = Vec::new();
        let mut gclasses: Vec<String> = Vec::new();
        let mut count: u64 = self.serializer_count;
        let mut pending: Vec<char> = Vec::new();
        let mut i: usize = 0;
        proof {
            assert(out@ =~= Seq::<char>::empty());
            assert(removed@ =~= Seq::<char>::empty());
            assert(bindings_view(nb@) =~= Seq::<(Seq<char>, Seq<char>)>::empty());
            assert(views_of(gclasses@) =~= Seq::<Seq<char>>::empty());
            assert(pending@ =~= Seq::<char>::empty());
        }
        while i < len
            invariant
                i <= len,
                len == sv.len(),
                sv == value@,
                cnt0 + len <= u64::MAX as int,
                count as int <= cnt0 + i,
                scan_from(
                    sv,
                    i as int,
                    pending@,
                    GroupScan {
                        rewritten: out@,
                        removed: removed@,
                        bindings: bindings_view(nb@),
                        classes: views_of(gclasses@),
                        counter: count as int,
                    },
                ) == total,
            decreases len - i,
        {
            let ghost i0 = i as int;
            let ghost pend0 = pending@;
            let ghost acc0 = GroupScan {
                rewritten: out@,
                removed: removed@,
                bindings: bindings_view(nb@),
                classes: views_of(gclasses@),
                counter: count as int,
            };
            let c = value.get_char(i);
            if is_word_char(c) {
                pending.push(c);
                i += 1;
                proof {
                    assert(scan_from(sv, i0, pend0, acc0) == scan_from(
                        sv,
                        i0 + 1,
                        pend0.push(sv[i0]),
                        acc0,
                    ));
                }
            } else if c == '(' {
                let close = find_close_exec(value, i + 1);
                if close < len && close > i + 1 {
                    proof {
                        assert(match_ok(sv, i0));
                    }
                    let interior = value.substring_char(i + 1, close);
                    let tlen = trim_plus_len(interior);
                    let trimmed = interior.substring_char(0, tlen);
                    let gc = plus_split_exec(trimmed);
                    let ghost gcv = views_of(gc@);
                    proof {
                        assert(interior@ == sv.subrange(i0 + 1, close as int));
                        assert(trimmed@ == trim_plus_end(interior@));
                        assert(gcv == plus_split(trim_plus_end(sv.subrange(i0 + 1, close as int))));
                    }
                    let abbrev = abbrev_of_names(&gc);
                    let named = pending.len() > 0;
                    let name: String = if named {
                        chars_to_string(&pending)
                    } else {
                        count += 1;
                        let mut nm = String::new();
                        push_char(&mut nm, '_');
                        push_dec(&mut nm, count);
                        proof {
                            assert(nm@ =~= seq!['_'] + dec_seq(count as nat));
                        }
                        nm
                    };
                    let ghost namev = name@;
                    out.append(name.as_str());
                    out.append("(");
                    out.append(abbrev.as_str());
                    out.append("+)");
                    proof {
                        reveal_strlit("(");
                        reveal_strlit("+)");
                        assert("("@ =~= seq!['(']);
                        assert("+)"@ =~= seq!['+', ')']);
                        assert(out@ =~= acc0.rewritten + namev + seq!['('] + abbrev_spec(gcv)
                            + seq!['+', ')']);
                    }
                    let val = join_space_exec(&gc);
                    let ghost valv = val@;
                    let b = Binding { name, value: val };
                    let ghost bval = b;
                    let ghost nbpre = nb@;
                    nb.push(b);
                    let ghost gcpre = gclasses@;
                    let ghost gcseq = gc@;
                    let mut gcmove = gc;
                    gclasses.append(&mut gcmove);
                    i = close + 1;
                    pending = Vec::new();
                    proof {
                        lemma_bindings_push(nbpre, bval);
                        crate::strset::lemma_views_concat(gcpre, gcseq);
                        assert(views_of(gclasses@) == acc0.classes + gcv);
                        assert(pending@ =~= Seq::<char>::empty());
                        let acc2 = GroupScan {
                            rewritten: acc0.rewritten + namev + seq!['('] + abbrev_spec(gcv)
                                + seq!['+', ')'],
                            removed: acc0.removed,
                            bindings: acc0.bindings.push((namev, join_space(gcv))),
                            classes: acc0.classes + gcv,
                            counter: count as int,
                        };
                        assert(scan_from(sv, i0, pend0, acc0) == scan_from(
                            sv,
                            close as int + 1,
                            Seq::<char>::empty(),
                            acc2,
                        ));
                        assert(bindings_view(nb@) == acc2.bindings);
                        assert(out@ == acc2.rewritten);
                    }
                } else {
                    let ptxt = chars_to_string(&pending);
                    out.append(ptxt.as_str());
                    out.append("(");
                    removed.append(&mut pending);
                    removed.push('(');
                    i += 1;
                    proof {
                        reveal_strlit("(");
                        assert("("@ =~= seq!['(']);
                        assert(!match_ok(sv, i0)) by {
                            if close as int == sv.len() {
                            }
                        }
                        assert(out@ =~= acc0.rewritten + pend0.push('('));
                        assert(removed@ =~= acc0.removed + pend0.push('('));
                        assert(pending@ =~= Seq::<char>::empty());
                        let acc2 = GroupScan {
                            rewritten: acc0.rewritten + pend0.push(sv[i0]),
                            removed: acc0.removed + pend0.push(sv[i0]),
                            bindings: acc0.bindings,
                            classes: acc0.classes,
                            counter: acc0.counter,
                        };
                        assert(scan_from(sv, i0, pend0, acc0) == scan_from(
                            sv,
                            i0 + 1,
                            Seq::<char>::empty(),
                            acc2,
                        ));
                    }
                }
            } else {
                let ptxt = chars_to_string(&pending);
                out.append(ptxt.as_str());
                push_char(&mut out, c);
                removed.append(&mut pending);
                removed.push(c);
                i += 1;
                proof {
                    assert(out@ =~= acc0.rewritten + pend0.push(sv[i0]));
                    assert(removed@ =~= acc0.removed + pend0.push(sv[i0]));
                    assert(pending@ =~= Seq::<char>::empty());
                    let acc2 = GroupScan {
                        rewritten: acc0.rewritten + pend0.push(sv[i0]),
                        removed: acc0.removed + pend0.push(sv[i0]),
                        bindings: acc0.bindings,
                        classes: acc0.classes,
                        counter: acc0.counter,
                    };
                    assert(scan_from(sv, i0, pend0, acc0) == scan_from(
                        sv,
                        i0 + 1,
                        Seq::<char>::empty(),
                        acc2,
                    ));
                }
            }
        }
        let ghost accend = GroupScan {
            rewritten: out@,
            removed: removed@,
            bindings: bindings_view(nb@),
            classes: views_of(gclasses@),
            counter: count as int,
        };
        let ghost pendend = pending@;
        let ptxt = chars_to_string(&pending);
        out.append(ptxt.as_str());
        removed.append(&mut pending);
        proof {
            assert(total == GroupScan {
                rewritten: accend.rewritten + pendend,
                removed: accend.removed + pendend,
                bindings: accend.bindings,
                classes: accend.classes,
                counter: accend.counter,
            });
            assert(out@ == total.rewritten);
            assert(removed@ =~= total.removed);
        }
        if nb.len() > 0 {
            self.serializer_count = count;
            let ghost nvpre = self.new_vars@;
            let ghost nbseq = nb@;
            let mut nbmove = nb;
            self.new_vars.append(&mut nbmove);
            proof {
                lemma_bindings_concat(nvpre, nbseq);
            }
            let rtxt = chars_to_string(&removed);
            let mut rem = split_whitespace_names(rtxt.as_str());
            let ghost gcl = gclasses@;
            let ghost remseq = rem@;
            gclasses.append(&mut rem);
            proof {
                crate::strset::lemma_views_concat(gcl, remseq);
                assert(views_of(gclasses@) == total.classes + split_ws(total.removed));
            }
            let ghost ovpre = self.resolved_classes@;
            let pc = PosClasses { position, class_names: gclasses };
            let ghost pcval = pc;
            self.resolved_classes.push(pc);
            proof {
                lemma_overrides_push(ovpre, pcval);
                assert(views_of(pcval.class_names@) == resolved_of(total));
            }
            Some(out)
        } else {
            proof {
                assert(total.bindings.len() == 0);
            }
            None
        }
    }

    /// Hands out the synthesized bindings gathered so far and clears them;
    /// the caller splices them at the head of the document.
    pub fn take_bindings(&mut self) -> (r: Vec<Binding>)
        ensures
            r@ == old(self).new_vars@,
            final(self).new_vars@.len() == 0,
            final(self).serializer_count == old(self).serializer_count,
            final(self).resolved_classes@ == old(self).resolved_classes@,
    {
        let mut out: Vec<Binding> = Vec::new();
        core::mem::swap(&mut out, &mut self.new_vars);
        out
    }
}

} // verus!
