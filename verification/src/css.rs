//! The stylesheet skeleton: one empty rule per class (`.name {}`) and per
//! identifier (`#name {}`), classes first, each group in ascending order.
//! The parser reads such a file back into its class and identifier sets, so
//! a run can tell whether the stylesheet on disk already matches the
//! extracted sets and skip the rewrite.

use vstd::prelude::*;

use crate::strset::{views_of, NameSet};
use crate::text::{
    chars_to_string, is_space, is_space_char, is_word_char_spec, push_char,
};

verus! {

/// One stylesheet line: the selector prefix, the name, and an empty body.
pub open spec fn css_line(prefix: char, name: Seq<char>) -> Seq<char> {
    seq![prefix] + name + seq![' ', '{', '}', '\n']
}

/// The lines of the first `n` names, in order.
pub open spec fn css_lines_upto(names: Seq<Seq<char>>, prefix: char, n: int) -> Seq<char>
    decreases n,
{
    if n <= 0 {
        Seq::<char>::empty()
    } else {
        css_lines_upto(names, prefix, n - 1) + css_line(prefix, names[n - 1])
    }
}

/// The whole stylesheet text: class rules, then identifier rules.
pub open spec fn render_css_text(classes: Seq<Seq<char>>, ids: Seq<Seq<char>>) -> Seq<char> {
    css_lines_upto(classes, '.', classes.len() as int) + css_lines_upto(
        ids,
        '#',
        ids.len() as int,
    )
}

fn append_css_lines(out: &mut String, prefix: char, names: &Vec<String>)
    ensures
        final(out)@ == old(out)@ + css_lines_upto(
            views_of(names@),
            prefix,
            names@.len() as int,
        ),
{
    let ghost nv = views_of(names@);
    let mut k: usize = 0;
    proof {
        assert(out@ =~= old(out)@ + css_lines_upto(nv, prefix, 0));
    }
    while k < names.len()
        invariant
            k <= names@.len(),
            nv == views_of(names@),
            out@ == old(out)@ + css_lines_upto(nv, prefix, k as int),
        decreases names@.len() - k,
    {
        push_char(out, prefix);
        out.append(names[k].as_str());
        out.append(" {}\n");
        k += 1;
        proof {
            reveal_strlit(" {}\n");
            assert(" {}\n"@ =~= seq![' ', '{', '}', '\n']);
            assert(out@ =~= old(out)@ + css_lines_upto(nv, prefix, k as int));
        }
    }
}

/// Renders the stylesheet skeleton of the given class and identifier sets:
/// `.name {}` for every class, then `#name {}` for every identifier, each
/// group in ascending order.
pub fn render_css(classes: &NameSet, ids: &NameSet) -> (r: String)
    ensures
        r@ == render_css_text(classes.seq_view(), ids.seq_view()),
{
    let mut out = String::new();
    proof {
        assert(out@ =~= Seq::<char>::empty());
    }
    append_css_lines(&mut out, '.', classes.sorted_items());
    append_css_lines(&mut out, '#', ids.sorted_items());
    out
}

/// A character a selector name may hold: letters, digits, `_`, `-`.
pub open spec fn is_css_name_char(c: char) -> bool {
    is_word_char_spec(c) || c == '-'
}

/// The maximal leading run of selector-name characters.
pub open spec fn leading_name_run(s: Seq<char>) -> Seq<char>
    decreases s.len(),
{
    if s.len() > 0 && is_css_name_char(s[0]) {
        seq![s[0]] + leading_name_run(s.drop_first())
    } else {
        Seq::<char>::empty()
    }
}

/// What one stylesheet line contributes: a class name after `.`, an
/// identifier after `#`, leading whitespace skipped, or nothing when the
/// line has no selector with a nonempty name.
pub open spec fn parse_css_line(line: Seq<char>) -> Option<(bool, Seq<char>)>
    decreases line.len(),
{
    if line.len() == 0 {
        None
    } else if is_space_char(line[0]) {
        parse_css_line(line.drop_first())
    } else if line[0] == '.' || line[0] == '#' {
        let name = leading_name_run(line.drop_first());
        if name.len() > 0 {
            Some((line[0] == '.', name))
        } else {
            None
        }
    } else {
        None
    }
}

proof fn lemma_leading_name_run_whole(name: Seq<char>, rest: Seq<char>)
    requires
        forall|k: int| 0 <= k < name.len() ==> is_css_name_char(#[trigger] name[k]),
        rest.len() > 0,
        !is_css_name_char(rest[0]),
    ensures
        leading_name_run(name + rest) == name,
    decreases name.len(),
{
    if name.len() == 0 {
        assert(name + rest =~= rest);
        assert(leading_name_run(rest) =~= name);
    } else {
        assert((name + rest)[0] == name[0]);
        assert((name + rest).drop_first() =~= name.drop_first() + rest);
        lemma_leading_name_run_whole(name.drop_first(), rest);
        assert(leading_name_run(name + rest) =~= seq![name[0]] + name.drop_first());
        assert(seq![name[0]] + name.drop_first() =~= name);
    }
}

/// A rendered stylesheet line parses back to exactly the prefix kind and
/// name it was rendered from, provided the name is a nonempty selector
/// name. Rendering loses nothing that parsing reads.
pub proof fn lemma_css_line_round_trip(prefix: char, name: Seq<char>)
    requires
        prefix == '.' || prefix == '#',
        name.len() > 0,
        forall|k: int| 0 <= k < name.len() ==> is_css_name_char(#[trigger] name[k]),
    ensures
        parse_css_line(css_line(prefix, name)) == Some((prefix == '.', name)),
{
    let line = css_line(prefix, name);
    assert(line[0] == prefix);
    assert(!is_space_char(prefix));
    assert(line.drop_first() =~= name + seq![' ', '{', '}', '\n']);
    lemma_leading_name_run_whole(name, seq![' ', '{', '}', '\n']);
}

/// One step of line splitting.
pub open spec fn split_lines_go(
    s: Seq<char>,
    i: int,
    cur: Seq<char>,
    acc: Seq<Seq<char>>,
) -> Seq<Seq<char>>
    decreases s.len() - i,
{
    if i < 0 || i >= s.len() {
        if cur.len() > 0 {
            acc.push(cur)
        } else {
            acc
        }
    } else if s[i] == '\n' {
        split_lines_go(s, i + 1, Seq::<char>::empty(), acc.push(cur))
    } else {
        split_lines_go(s, i + 1, cur.push(s[i]), acc)
    }
}

/// The lines of a text, split on `\n`; a final empty segment is dropped.
pub open spec fn split_lines(s: Seq<char>) -> Seq<Seq<char>> {
    split_lines_go(s, 0, Seq::<char>::empty(), Seq::<Seq<char>>::empty())
}

/// The class and identifier sets contributed by the first `n` lines.
pub open spec fn css_sets_upto(lines: Seq<Seq<char>>, n: int) -> (Set<Seq<char>>, Set<Seq<char>>)
    decreases n,
{
    if n <= 0 {
        (Set::<Seq<char>>::empty(), Set::<Seq<char>>::empty())
    } else {
        let prev = css_sets_upto(lines, n - 1);
        match parse_css_line(lines[n - 1]) {
            Some(entry) => if entry.0 {
                (prev.0.insert(entry.1), prev.1)
            } else {
                (prev.0, prev.1.insert(entry.1))
            },
            None => prev,
        }
    }
}

/// The class and identifier sets of a whole stylesheet text.
pub open spec fn css_sets_of(text: Seq<char>) -> (Set<Seq<char>>, Set<Seq<char>>) {
    css_sets_upto(split_lines(text), split_lines(text).len() as int)
}

proof fn lemma_split_segment(t: Seq<char>, i: int, j: int, cur: Seq<char>, acc: Seq<Seq<char>>)
    requires
        0 <= i <= j < t.len(),
        forall|k: int| i <= k < j ==> t[k] != '\n',
        t[j] == '\n',
    ensures
        split_lines_go(t, i, cur, acc) == split_lines_go(
            t,
            j + 1,
            Seq::<char>::empty(),
            acc.push(cur + t.subrange(i, j)),
        ),
    decreases j - i,
{
    if i == j {
        assert(cur + t.subrange(i, j) =~= cur);
    } else {
        lemma_split_segment(t, i + 1, j, cur.push(t[i]), acc);
        assert(cur.push(t[i]) + t.subrange(i + 1, j) =~= cur + t.subrange(i, j));
    }
}

/// The stylesheet line of one name, without its final newline.
pub open spec fn css_line_body(prefix: char, name: Seq<char>) -> Seq<char> {
    seq![prefix] + name + seq![' ', '{', '}']
}

/// Splitting looks only at the text from the index on.
proof fn lemma_split_suffix(t1: Seq<char>, i1: int, t2: Seq<char>, i2: int, cur: Seq<char>, acc: Seq<Seq<char>>)
    requires
        0 <= i1 <= t1.len(),
        0 <= i2 <= t2.len(),
        t1.skip(i1) == t2.skip(i2),
    ensures
        split_lines_go(t1, i1, cur, acc) == split_lines_go(t2, i2, cur, acc),
    decreases t1.len() - i1,
{
    assert(t1.skip(i1).len() == t1.len() - i1);
    assert(t2.skip(i2).len() == t2.len() - i2);
    if i1 >= t1.len() {
        assert(t2.len() - i2 == 0);
    } else {
        assert(t1.skip(i1)[0] == t1[i1]);
        assert(t2.skip(i2)[0] == t2[i2]);
        assert(t1.skip(i1 + 1) =~= t2.skip(i2 + 1)) by {
            assert(t1.skip(i1 + 1) =~= t1.skip(i1).drop_first());
            assert(t2.skip(i2 + 1) =~= t2.skip(i2).drop_first());
        }
        lemma_split_suffix(t1, i1 + 1, t2, i2 + 1, cur.push(t1[i1]), acc);
        lemma_split_suffix(t1, i1 + 1, t2, i2 + 1, Seq::<char>::empty(), acc.push(cur));
    }
}

/// Consuming one newline-terminated segment takes it as one line.
proof fn lemma_split_line(body: Seq<char>, rest: Seq<char>, acc: Seq<Seq<char>>)
    requires
        forall|k: int| 0 <= k < body.len() ==> body[k] != '\n',
    ensures
        split_lines_go(body + seq!['\n'] + rest, 0, Seq::<char>::empty(), acc)
            == split_lines_go(rest, 0, Seq::<char>::empty(), acc.push(body)),
{
    let t = body + seq!['\n'] + rest;
    let j = body.len() as int;
    assert(t.len() == body.len() + 1 + rest.len());
    assert(t[j] == '\n');
    assert forall|k: int| 0 <= k < j implies t[k] != '\n' by {
        assert(t[k] == body[k]);
    }
    lemma_split_segment(t, 0, j, Seq::<char>::empty(), acc);
    assert(Seq::<char>::empty() + t.subrange(0, j) =~= body);
    assert(t.skip(j + 1) =~= rest);
    assert(rest.skip(0) =~= rest);
    lemma_split_suffix(t, j + 1, rest, 0, Seq::<char>::empty(), acc.push(body));
}

/// The lines of the names from `k` on: each name's line, in order.
pub open spec fn css_lines_from(names: Seq<Seq<char>>, prefix: char, k: int) -> Seq<char>
    decreases names.len() - k,
{
    if k < 0 || k >= names.len() {
        Seq::<char>::empty()
    } else {
        css_line(prefix, names[k]) + css_lines_from(names, prefix, k + 1)
    }
}

/// The line bodies of the names from `k` on.
pub open spec fn css_bodies_from(names: Seq<Seq<char>>, prefix: char, k: int) -> Seq<Seq<char>>
    decreases names.len() - k,
{
    if k < 0 || k >= names.len() {
        Seq::<Seq<char>>::empty()
    } else {
        seq![css_line_body(prefix, names[k])] + css_bodies_from(names, prefix, k + 1)
    }
}

proof fn lemma_lines_upto_from(names: Seq<Seq<char>>, prefix: char, k: int)
    requires
        0 <= k <= names.len(),
    ensures
        css_lines_upto(names, prefix, names.len() as int) == css_lines_upto(names, prefix, k)
            + css_lines_from(names, prefix, k),
    decreases names.len() - k,
{
    if k == names.len() {
        assert(css_lines_upto(names, prefix, k) + css_lines_from(names, prefix, k)
            =~= css_lines_upto(names, prefix, k));
    } else {
        lemma_lines_upto_from(names, prefix, k + 1);
        assert(css_lines_upto(names, prefix, k + 1) == css_lines_upto(names, prefix, k)
            + css_line(prefix, names[k]));
        assert(css_lines_upto(names, prefix, k) + (css_line(prefix, names[k]) + css_lines_from(
            names,
            prefix,
            k + 1,
        )) =~= (css_lines_upto(names, prefix, k) + css_line(prefix, names[k])) + css_lines_from(
            names,
            prefix,
            k + 1,
        ));
    }
}

/// A name may not hold a newline (selector-name characters never do).
pub open spec fn newline_free(names: Seq<Seq<char>>) -> bool {
    forall|k: int, m: int|
        0 <= k < names.len() && 0 <= m < names[k].len() ==> #[trigger] names[k][m] != '\n'
}

proof fn lemma_split_group(
    names: Seq<Seq<char>>,
    prefix: char,
    k: int,
    rest: Seq<char>,
    acc: Seq<Seq<char>>,
)
    requires
        0 <= k <= names.len(),
        prefix != '\n',
        newline_free(names),
    ensures
        split_lines_go(css_lines_from(names, prefix, k) + rest, 0, Seq::<char>::empty(), acc)
            == split_lines_go(rest, 0, Seq::<char>::empty(), acc + css_bodies_from(names, prefix, k)),
    decreases names.len() - k,
{
    if k == names.len() {
        assert(css_lines_from(names, prefix, k) + rest =~= rest);
        assert(acc + css_bodies_from(names, prefix, k) =~= acc);
        lemma_split_suffix(
            css_lines_from(names, prefix, k) + rest,
            0,
            rest,
            0,
            Seq::<char>::empty(),
            acc,
        );
    } else {
        let body = css_line_body(prefix, names[k]);
        let rest2 = css_lines_from(names, prefix, k + 1) + rest;
        assert(css_line(prefix, names[k]) =~= body + seq!['\n']);
        assert(css_lines_from(names, prefix, k) + rest =~= body + seq!['\n'] + rest2);
        assert(forall|m: int| 0 <= m < body.len() ==> body[m] != '\n') by {
            assert(forall|m: int|
                0 <= m < names[k].len() ==> body[m + 1] == names[k][m]);
        }
        lemma_split_line(body, rest2, acc);
        lemma_split_group(names, prefix, k + 1, rest, acc.push(body));
        assert(acc.push(body) + css_bodies_from(names, prefix, k + 1) =~= acc + css_bodies_from(
            names,
            prefix,
            k,
        ));
        lemma_split_suffix(
            css_lines_from(names, prefix, k) + rest,
            0,
            body + seq!['\n'] + rest2,
            0,
            Seq::<char>::empty(),
            acc,
        );
    }
}

/// Selector names fit for rendering: nonempty, selector-name characters
/// only.
pub open spec fn valid_names(names: Seq<Seq<char>>) -> bool {
    forall|k: int|
        0 <= k < names.len() ==> (#[trigger] names[k]).len() > 0 && (forall|m: int|
            0 <= m < names[k].len() ==> is_css_name_char(#[trigger] names[k][m]))
}

proof fn lemma_body_parse(prefix: char, name: Seq<char>)
    requires
        prefix == '.' || prefix == '#',
        name.len() > 0,
        forall|k: int| 0 <= k < name.len() ==> is_css_name_char(#[trigger] name[k]),
    ensures
        parse_css_line(css_line_body(prefix, name)) == Some((prefix == '.', name)),
{
    let line = css_line_body(prefix, name);
    assert(line[0] == prefix);
    assert(!is_space_char(prefix));
    assert(line.drop_first() =~= name + seq![' ', '{', '}']);
    lemma_leading_name_run_whole(name, seq![' ', '{', '}']);
}

proof fn lemma_sets_classes(cs: Seq<Seq<char>>, lines: Seq<Seq<char>>, n: int)
    requires
        valid_names(cs),
        0 <= n <= cs.len() <= lines.len(),
        forall|k: int| 0 <= k < cs.len() ==> lines[k] == css_line_body('.', #[trigger] cs[k]),
    ensures
        css_sets_upto(lines, n) == (cs.take(n).to_set(), Set::<Seq<char>>::empty()),
    decreases n,
{
    if n == 0 {
        assert(cs.take(0).to_set() =~= Set::<Seq<char>>::empty()) by {
            assert(cs.take(0).len() == 0);
        }
    } else {
        lemma_sets_classes(cs, lines, n - 1);
        lemma_body_parse('.', cs[n - 1]);
        assert(lines[n - 1] == css_line_body('.', cs[n - 1]));
        crate::strset::lemma_take_to_set_step(cs, n - 1);
    }
}

proof fn lemma_sets_ids(
    cs: Seq<Seq<char>>,
    is: Seq<Seq<char>>,
    lines: Seq<Seq<char>>,
    n: int,
)
    requires
        valid_names(cs),
        valid_names(is),
        lines.len() == cs.len() + is.len(),
        0 <= n <= is.len(),
        forall|k: int| 0 <= k < cs.len() ==> lines[k] == css_line_body('.', #[trigger] cs[k]),
        forall|k: int|
            0 <= k < is.len() ==> lines[cs.len() + k] == css_line_body('#', #[trigger] is[k]),
    ensures
        css_sets_upto(lines, cs.len() + n) == (cs.to_set(), is.take(n).to_set()),
    decreases n,
{
    if n == 0 {
        lemma_sets_classes(cs, lines, cs.len() as int);
        assert(cs.take(cs.len() as int) =~= cs);
        assert(is.take(0).to_set() =~= Set::<Seq<char>>::empty()) by {
            assert(is.take(0).len() == 0);
        }
    } else {
        lemma_sets_ids(cs, is, lines, n - 1);
        lemma_body_parse('#', is[n - 1]);
        assert(lines[cs.len() + n - 1] == css_line_body('#', is[n - 1]));
        crate::strset::lemma_take_to_set_step(is, n - 1);
    }
}

/// Round trip: parsing a rendered stylesheet recovers exactly the class
/// and identifier sets it was rendered from, for selector names fit for
/// rendering — rendering loses nothing and invents nothing.
pub proof fn lemma_render_parse_round_trip(cs: Seq<Seq<char>>, is: Seq<Seq<char>>)
    requires
        valid_names(cs),
        valid_names(is),
    ensures
        css_sets_of(render_css_text(cs, is)) == (cs.to_set(), is.to_set()),
{
    assert(newline_free(cs)) by {
        assert(forall|k: int, m: int|
            0 <= k < cs.len() && 0 <= m < cs[k].len() ==> is_css_name_char(
                #[trigger] cs[k][m],
            ));
    }
    assert(newline_free(is)) by {
        assert(forall|k: int, m: int|
            0 <= k < is.len() && 0 <= m < is[k].len() ==> is_css_name_char(
                #[trigger] is[k][m],
            ));
    }
    let text = render_css_text(cs, is);
    let from_cs = css_lines_from(cs, '.', 0);
    let from_is = css_lines_from(is, '#', 0);
    lemma_lines_upto_from(cs, '.', 0);
    lemma_lines_upto_from(is, '#', 0);
    assert(text == from_cs + from_is) by {
        assert(css_lines_upto(cs, '.', 0).len() == 0);
        assert(css_lines_upto(is, '#', 0).len() == 0);
        assert(css_lines_upto(cs, '.', 0) + from_cs =~= from_cs);
        assert(css_lines_upto(is, '#', 0) + from_is =~= from_is);
    }
    let bodies_cs = css_bodies_from(cs, '.', 0);
    let bodies_is = css_bodies_from(is, '#', 0);
    lemma_split_group(cs, '.', 0, from_is, Seq::<Seq<char>>::empty());
    lemma_split_group(is, '#', 0, Seq::<char>::empty(), Seq::<Seq<char>>::empty() + bodies_cs);
    assert(from_is + Seq::<char>::empty() =~= from_is);
    lemma_split_suffix(
        from_is,
        0,
        from_is + Seq::<char>::empty(),
        0,
        Seq::<char>::empty(),
        Seq::<Seq<char>>::empty() + bodies_cs,
    );
    assert(split_lines(text) == (Seq::<Seq<char>>::empty() + bodies_cs) + bodies_is) by {
        assert(split_lines_go(
            Seq::<char>::empty(),
            0,
            Seq::<char>::empty(),
            (Seq::<Seq<char>>::empty() + bodies_cs) + bodies_is,
        ) == (Seq::<Seq<char>>::empty() + bodies_cs) + bodies_is);
    }
    let lines = split_lines(text);
    lemma_bodies_shape(cs, '.', 0);
    lemma_bodies_shape(is, '#', 0);
    assert(lines =~= bodies_cs + bodies_is);
    assert(lines.len() == cs.len() + is.len());
    assert(forall|k: int|
        0 <= k < cs.len() ==> lines[k] == css_line_body('.', #[trigger] cs[k]));
    assert(forall|k: int|
        0 <= k < is.len() ==> lines[cs.len() + k] == css_line_body('#', #[trigger] is[k]));
    lemma_sets_ids(cs, is, lines, is.len() as int);
    assert(is.take(is.len() as int) =~= is);
}

proof fn lemma_bodies_shape(names: Seq<Seq<char>>, prefix: char, k: int)
    requires
        0 <= k <= names.len(),
    ensures
        css_bodies_from(names, prefix, k).len() == names.len() - k,
        forall|m: int|
            k <= m < names.len() ==> css_bodies_from(names, prefix, k)[m - k] == css_line_body(
                prefix,
                #[trigger] names[m],
            ),
    decreases names.len() - k,
{
    if k < names.len() {
        lemma_bodies_shape(names, prefix, k + 1);
        assert forall|m: int|
            k <= m < names.len() implies css_bodies_from(names, prefix, k)[m - k]
            == css_line_body(prefix, #[trigger] names[m]) by {
            if m > k {
                assert(css_bodies_from(names, prefix, k)[m - k] == css_bodies_from(
                    names,
                    prefix,
                    k + 1,
                )[m - k - 1]);
            }
        }
    }
}

fn split_lines_exec(s: &str) -> (r: Vec<String>)
    ensures
        views_of(r@) == split_lines(s@),
{
    let len = s.unicode_len();
    let mut acc: Vec<String> = Vec::new();
    let mut cur: Vec<char> = Vec::new();
    let mut i: usize = 0;
    proof {
        assert(views_of(acc@) =~= Seq::<Seq<char>>::empty());
        assert(cur@ =~= Seq::<char>::empty());
    }
    while i < len
        invariant
            i <= len,
            len == s@.len(),
            split_lines_go(s@, i as int, cur@, views_of(acc@)) == split_lines(s@),
        decreases len - i,
    {
        let c = s.get_char(i);
        if c == '\n' {
            let tok = chars_to_string(&cur);
            let ghost tv = tok;
            let ghost pre = acc@;
            acc.push(tok);
            proof {
                crate::strset::lemma_views_push(pre, tv);
            }
            cur = Vec::new();
            proof {
                assert(cur@ =~= Seq::<char>::empty());
            }
        } else {
            cur.push(c);
        }
        i += 1;
    }
    if cur.len() > 0 {
        let tok = chars_to_string(&cur);
        let ghost tv = tok;
        let ghost pre = acc@;
        acc.push(tok);
        proof {
            crate::strset::lemma_views_push(pre, tv);
        }
    }
    acc
}

fn parse_css_line_exec(line: &str) -> (r: Option<(bool, String)>)
    ensures
        match r {
            Some(entry) => parse_css_line(line@) == Some((entry.0, entry.1@)),
            None => parse_css_line(line@) is None,
        },
{
    let ghost lv = line@;
    let len = line.unicode_len();
    let mut i: usize = 0;
    proof {
        assert(lv.skip(0) =~= lv);
    }
    while i < len && is_space(line.get_char(i))
        invariant
            i <= len,
            len == lv.len(),
            lv == line@,
            parse_css_line(lv) == parse_css_line(lv.skip(i as int)),
        decreases len - i,
    {
        i += 1;
        proof {
            assert(lv.skip(i as int - 1)[0] == lv[i as int - 1]);
            assert(lv.skip(i as int - 1).drop_first() =~= lv.skip(i as int));
        }
    }
    if i >= len {
        proof {
            assert(lv.skip(i as int).len() == 0);
        }
        return None;
    }
    let c = line.get_char(i);
    proof {
        assert(lv.skip(i as int)[0] == lv[i as int]);
    }
    if c != '.' && c != '#' {
        return None;
    }
    // collect the selector name
    let mut tok: Vec<char> = Vec::new();
    let mut j: usize = i + 1;
    proof {
        assert(lv.skip(i as int).drop_first() =~= lv.skip(i as int + 1));
        assert(leading_name_run(lv.skip(i as int + 1)) =~= tok@ + leading_name_run(
            lv.skip(j as int),
        ));
    }
    while j < len && css_name_char_at(line, j)
        invariant
            i < j <= len,
            len == lv.len(),
            lv == line@,
            leading_name_run(lv.skip(i as int + 1)) == tok@ + leading_name_run(lv.skip(j as int)),
            forall|k: int| 0 <= k < tok@.len() ==> is_css_name_char(tok@[k]),
            tok@.len() == j - i - 1,
        decreases len - j,
    {
        let cj = line.get_char(j);
        tok.push(cj);
        j += 1;
        proof {
            assert(lv.skip(j as int - 1)[0] == lv[j as int - 1]);
            assert(lv.skip(j as int - 1).drop_first() =~= lv.skip(j as int));
            assert(leading_name_run(lv.skip(j as int - 1)) == seq![lv[j as int - 1]]
                + leading_name_run(lv.skip(j as int)));
            assert(tok@ + leading_name_run(lv.skip(j as int)) =~= leading_name_run(
                lv.skip(i as int + 1),
            ));
        }
    }
    proof {
        if j < len {
            assert(lv.skip(j as int)[0] == lv[j as int]);
            assert(leading_name_run(lv.skip(j as int)) =~= Seq::<char>::empty());
        } else {
            assert(lv.skip(j as int).len() == 0);
            assert(leading_name_run(lv.skip(j as int)) =~= Seq::<char>::empty());
        }
        assert(tok@ =~= leading_name_run(lv.skip(i as int + 1)));
    }
    if tok.len() == 0 {
        return None;
    }
    let name = chars_to_string(&tok);
    Some((c == '.', name))
}

/// Tests whether the character at `j` may stand in a selector name.
fn css_name_char_at(s: &str, j: usize) -> (r: bool)
    requires
        j < s@.len(),
    ensures
        r == is_css_name_char(s@[j as int]),
{
    let c = s.get_char(j);
    crate::text::is_word_char(c) || c == '-'
}

/// Reads a stylesheet text back into its class and identifier sets: per
/// line, a leading `.name` contributes a class and a leading `#name` an
/// identifier, leading whitespace skipped; every other line is ignored.
pub fn parse_existing_css(text: &str) -> (r: (NameSet, NameSet))
    ensures
        r.0.wf(),
        r.1.wf(),
        (r.0@, r.1@) == css_sets_of(text@),
{
    let lines = split_lines_exec(text);
    let ghost lsv = views_of(lines@);
    let mut classes = NameSet::new();
    let mut ids = NameSet::new();
    let mut i: usize = 0;
    proof {
        assert((classes@, ids@) == css_sets_upto(lsv, 0)) by {
            assert(classes@ =~= css_sets_upto(lsv, 0).0);
            assert(ids@ =~= css_sets_upto(lsv, 0).1);
        }
    }
    while i < lines.len()
        invariant
            i <= lines@.len(),
            lsv == views_of(lines@),
            classes.wf(),
            ids.wf(),
            (classes@, ids@) == css_sets_upto(lsv, i as int),
        decreases lines@.len() - i,
    {
        proof {
            assert(lines@[i as int]@ == lsv[i as int]);
        }
        match parse_css_line_exec(lines[i].as_str()) {
            Option::Some(entry) => {
                if entry.0 {
                    classes.insert(entry.1);
                } else {
                    ids.insert(entry.1);
                }
            },
            Option::None => {},
        }
        i += 1;
        proof {
            assert((classes@, ids@) == css_sets_upto(lsv, i as int));
        }
    }
    proof {
        assert(css_sets_upto(lsv, lsv.len() as int) == css_sets_of(text@));
    }
    (classes, ids)
}

} // verus!
