//! Character-level utilities: whitespace and word-character classification,
//! ASCII upper-casing, decimal digit rendering, and lexicographic order on
//! character sequences.

use vstd::prelude::*;

verus! {

/// Whitespace characters recognized when splitting a class attribute value.
pub open spec fn is_space_char(c: char) -> bool {
    c == ' ' || c == '\t' || c == '\n' || c == '\r' || c == '\u{b}' || c == '\u{c}'
}

/// Executable test for [`is_space_char`].
pub fn is_space(c: char) -> (r: bool)
    ensures
        r == is_space_char(c),
{
    c == ' ' || c == '\t' || c == '\n' || c == '\r' || c == '\u{b}' || c == '\u{c}'
}

/// ASCII upper-casing of a single character; every other character is kept.
pub open spec fn upper_char(c: char) -> char {
    if 'a' <= c && c <= 'z' {
        (c as u32 - 32) as char
    } else {
        c
    }
}

/// Executable ASCII upper-casing, equal to [`upper_char`].
pub fn to_upper(c: char) -> (r: char)
    ensures
        r == upper_char(c),
{
    match c {
        'a' => 'A',
        'b' => 'B',
        'c' => 'C',
        'd' => 'D',
        'e' => 'E',
        'f' => 'F',
        'g' => 'G',
        'h' => 'H',
        'i' => 'I',
        'j' => 'J',
        'k' => 'K',
        'l' => 'L',
        'm' => 'M',
        'n' => 'N',
        'o' => 'O',
        'p' => 'P',
        'q' => 'Q',
        'r' => 'R',
        's' => 'S',
        't' => 'T',
        'u' => 'U',
        'v' => 'V',
        'w' => 'W',
        'x' => 'X',
        'y' => 'Y',
        'z' => 'Z',
        _ => c,
    }
}

/// Word characters: letters, digits and underscore. A grouped-class binding
/// name is a run of these.
pub open spec fn is_word_char_spec(c: char) -> bool {
    ('a' <= c && c <= 'z') || ('A' <= c && c <= 'Z') || ('0' <= c && c <= '9') || c == '_'
}

/// Executable test for [`is_word_char_spec`].
pub fn is_word_char(c: char) -> (r: bool)
    ensures
        r == is_word_char_spec(c),
{
    ('a' <= c && c <= 'z') || ('A' <= c && c <= 'Z') || ('0' <= c && c <= '9') || c == '_'
}

/// Relies on `String::push`: appends the given character to the end of the
/// string, leaving the earlier characters in place.
#[verifier::external_body]
pub(crate) fn push_char(s: &mut String, c: char)
    ensures
        final(s)@ == old(s)@.push(c),
{
    s.push(c);
}

/// The character for one decimal digit.
pub open spec fn dec_digit_char(d: int) -> char {
    if d == 0 {
        '0'
    } else if d == 1 {
        '1'
    } else if d == 2 {
        '2'
    } else if d == 3 {
        '3'
    } else if d == 4 {
        '4'
    } else if d == 5 {
        '5'
    } else if d == 6 {
        '6'
    } else if d == 7 {
        '7'
    } else if d == 8 {
        '8'
    } else {
        '9'
    }
}

/// The decimal rendering of a natural number, most significant digit first.
pub open spec fn dec_seq(n: nat) -> Seq<char>
    decreases n,
{
    if n < 10 {
        seq![dec_digit_char(n as int)]
    } else {
        dec_seq(n / 10).push(dec_digit_char((n % 10) as int))
    }
}

fn dec_digit(d: u64) -> (c: char)
    requires
        d < 10,
    ensures
        c == dec_digit_char(d as int),
{
    if d == 0 {
        '0'
    } else if d == 1 {
        '1'
    } else if d == 2 {
        '2'
    } else if d == 3 {
        '3'
    } else if d == 4 {
        '4'
    } else if d == 5 {
        '5'
    } else if d == 6 {
        '6'
    } else if d == 7 {
        '7'
    } else if d == 8 {
        '8'
    } else {
        '9'
    }
}

/// Appends the decimal rendering of `n` to `s`.
pub fn push_dec(s: &mut String, n: u64)
    ensures
        final(s)@ == old(s)@ + dec_seq(n as nat),
    decreases n,
{
    if n < 10 {
        let d = dec_digit(n);
        push_char(s, d);
        proof {
            assert(final(s)@ =~= old(s)@ + dec_seq(n as nat));
        }
    } else {
        push_dec(s, n / 10);
        let d = dec_digit(n % 10);
        push_char(s, d);
        proof {
            assert(final(s)@ =~= old(s)@ + dec_seq(n as nat));
        }
    }
}

/// Sorted insertion of a character, dropping it if already present.
pub open spec fn insert_sorted_char(c: char, s: Seq<char>) -> Seq<char>
    decreases s.len(),
{
    if s.len() == 0 {
        seq![c]
    } else if c < s[0] {
        seq![c] + s
    } else if c == s[0] {
        s
    } else {
        seq![s[0]] + insert_sorted_char(c, s.drop_first())
    }
}

/// The sorted, duplicate-free sequence holding exactly the characters of `s`.
pub open spec fn sort_dedup_chars(s: Seq<char>) -> Seq<char>
    decreases s.len(),
{
    if s.len() == 0 {
        Seq::<char>::empty()
    } else {
        insert_sorted_char(s[0], sort_dedup_chars(s.drop_first()))
    }
}

proof fn lemma_insert_sorted_char_at(c: char, s: Seq<char>, j: int)
    requires
        0 <= j <= s.len(),
        forall|k: int| 0 <= k < j ==> s[k] < c,
        j < s.len() ==> c <= s[j],
    ensures
        insert_sorted_char(c, s) == if j < s.len() && s[j] == c {
            s
        } else {
            (s.take(j) + seq![c] + s.skip(j))
        },
    decreases j,
{
    if j == 0 {
        if s.len() == 0 {
            assert(insert_sorted_char(c, s) =~= s.take(0) + seq![c] + s.skip(0));
        } else if c < s[0] {
            assert(insert_sorted_char(c, s) =~= s.take(0) + seq![c] + s.skip(0));
        }
    } else {
        let rest = s.drop_first();
        lemma_insert_sorted_char_at(c, rest, j - 1);
        assert(insert_sorted_char(c, s) == seq![s[0]] + insert_sorted_char(c, rest));
        if j < s.len() && s[j] == c {
            assert(rest[j - 1] == c);
            assert(insert_sorted_char(c, rest) == rest);
            assert(seq![s[0]] + rest =~= s);
        } else {
            assert(insert_sorted_char(c, rest) == rest.take(j - 1) + seq![c] + rest.skip(j - 1));
            assert(seq![s[0]] + (rest.take(j - 1) + seq![c] + rest.skip(j - 1)) =~= s.take(j)
                + seq![c] + s.skip(j));
        }
    }
}

/// Inserts `c` into the sorted vector `v`, keeping it sorted and skipping a
/// character already present.
pub fn insert_sorted(v: &mut Vec<char>, c: char)
    ensures
        final(v)@ == insert_sorted_char(c, old(v)@),
{
    let mut j: usize = 0;
    while j < v.len() && v[j] < c
        invariant
            j <= v.len(),
            forall|k: int| 0 <= k < j ==> v@[k] < c,
            v@ == old(v)@,
        decreases v.len() - j,
    {
        j += 1;
    }
    if j < v.len() && v[j] == c {
        proof {
            lemma_insert_sorted_char_at(c, v@, j as int);
        }
        return ;
    }
    proof {
        lemma_insert_sorted_char_at(c, v@, j as int);
        assert(old(v)@.insert(j as int, c) =~= old(v)@.take(j as int) + seq![c] + old(
            v,
        )@.skip(j as int));
    }
    v.insert(j, c);
}

/// Sorts the characters of `cs` and removes duplicates.
pub fn sort_dedup(cs: &Vec<char>) -> (r: Vec<char>)
    ensures
        r@ == sort_dedup_chars(cs@),
{
    let mut r: Vec<char> = Vec::new();
    let mut i: usize = cs.len();
    proof {
        assert(cs@.skip(i as int) =~= Seq::<char>::empty());
    }
    while i > 0
        invariant
            i <= cs.len(),
            r@ == sort_dedup_chars(cs@.skip(i as int)),
        decreases i,
    {
        i = i - 1;
        let c = cs[i];
        proof {
            assert(cs@.skip(i as int).drop_first() =~= cs@.skip(i as int + 1));
            assert(cs@.skip(i as int)[0] == cs@[i as int]);
        }
        insert_sorted(&mut r, c);
    }
    proof {
        assert(cs@.skip(0) =~= cs@);
    }
    r
}

/// Builds a string from a character vector.
pub fn chars_to_string(cs: &Vec<char>) -> (r: String)
    ensures
        r@ == cs@,
{
    let mut r = String::new();
    let mut i: usize = 0;
    while i < cs.len()
        invariant
            i <= cs.len(),
            r@ == cs@.take(i as int),
        decreases cs.len() - i,
    {
        push_char(&mut r, cs[i]);
        i += 1;
        proof {
            assert(cs@.take(i as int) =~= cs@.take(i as int - 1).push(cs@[i as int - 1]));
        }
    }
    proof {
        assert(cs@.take(cs@.len() as int) =~= cs@);
    }
    r
}

/// Strict lexicographic order on character sequences: a proper prefix comes
/// first; otherwise the first differing character decides.
pub open spec fn lex_lt(a: Seq<char>, b: Seq<char>) -> bool
    decreases a.len(),
{
    if b.len() == 0 {
        false
    } else if a.len() == 0 {
        true
    } else if a[0] < b[0] {
        true
    } else if b[0] < a[0] {
        false
    } else {
        lex_lt(a.drop_first(), b.drop_first())
    }
}

/// Of two distinct sequences, exactly one is lexicographically smaller.
pub proof fn lemma_lex_trichotomy(a: Seq<char>, b: Seq<char>)
    ensures
        lex_lt(a, b) || lex_lt(b, a) || a == b,
        !(lex_lt(a, b) && lex_lt(b, a)),
        lex_lt(a, b) ==> a != b,
    decreases a.len() + b.len(),
{
    if a.len() == 0 && b.len() == 0 {
        assert(a =~= b) by {
            assert(a.len() == b.len());
            assert(forall|i: int| 0 <= i < a.len() ==> a[i] == b[i]);
        }
    } else if a.len() > 0 && b.len() > 0 {
        if a[0] == b[0] {
            lemma_lex_trichotomy(a.drop_first(), b.drop_first());
            if a.drop_first() == b.drop_first() {
                assert(a =~= b) by {
                    assert(a.len() == b.len());
                    assert forall|i: int| 0 <= i < a.len() implies a[i] == b[i] by {
                        if i > 0 {
                            assert(a[i] == a.drop_first()[i - 1]);
                            assert(b[i] == b.drop_first()[i - 1]);
                        }
                    }
                }
            }
            if a == b {
                assert(a.drop_first() =~= b.drop_first());
            }
        } else {
            assert(a != b) by {
                if a == b {
                    assert(a[0] == b[0]);
                }
            }
        }
    }
}

/// Lexicographic order is transitive.
pub proof fn lemma_lex_trans(a: Seq<char>, b: Seq<char>, c: Seq<char>)
    requires
        lex_lt(a, b),
        lex_lt(b, c),
    ensures
        lex_lt(a, c),
    decreases a.len() + b.len() + c.len(),
{
    if a.len() == 0 {
    } else {
        if a[0] == b[0] && b[0] == c[0] {
            lemma_lex_trans(a.drop_first(), b.drop_first(), c.drop_first());
        }
    }
}

/// Executable lexicographic comparison of two string slices.
pub fn str_lt(a: &str, b: &str) -> (r: bool)
    ensures
        r == lex_lt(a@, b@),
{
    let alen = a.unicode_len();
    let blen = b.unicode_len();
    let mut i: usize = 0;
    proof {
        assert(a@.skip(0) =~= a@);
        assert(b@.skip(0) =~= b@);
    }
    loop
        invariant
            i <= alen,
            i <= blen,
            alen == a@.len(),
            blen == b@.len(),
            lex_lt(a@, b@) == lex_lt(a@.skip(i as int), b@.skip(i as int)),
        decreases alen - i,
    {
        if i >= blen {
            return false;
        }
        if i >= alen {
            return true;
        }
        let ca = a.get_char(i);
        let cb = b.get_char(i);
        if ca < cb {
            return true;
        }
        if cb < ca {
            return false;
        }
        i += 1;
        proof {
            assert(a@.skip(i as int) =~= a@.skip(i as int - 1).drop_first());
            assert(b@.skip(i as int) =~= b@.skip(i as int - 1).drop_first());
        }
    }
}

/// Executable character-wise equality of two string slices.
pub fn str_eq(a: &str, b: &str) -> (r: bool)
    ensures
        r == (a@ == b@),
{
    let alen = a.unicode_len();
    let blen = b.unicode_len();
    if alen != blen {
        proof {
            assert(a@ != b@) by {
                if a@ == b@ {
                    assert(a@.len() == b@.len());
                }
            }
        }
        return false;
    }
    let mut i: usize = 0;
    while i < alen
        invariant
            i <= alen,
            alen == a@.len(),
            alen == b@.len(),
            forall|k: int| 0 <= k < i ==> a@[k] == b@[k],
        decreases alen - i,
    {
        let ca = a.get_char(i);
        let cb = b.get_char(i);
        if ca != cb {
            proof {
                assert(a@ != b@) by {
                    if a@ == b@ {
                        assert(a@[i as int] == b@[i as int]);
                    }
                }
            }
            return false;
        }
        i += 1;
    }
    proof {
        assert(a@ =~= b@);
    }
    true
}

} // verus!
