//! Character classes, separator scanning and fragment handling shared by the
//! store-path parsers and the command-output readers.

use vstd::prelude::*;

verus! {

/// Index of the first `c` in `s`, or `s.len()` when there is none.
pub open spec fn first_char(s: Seq<char>, c: char) -> int
    decreases s.len(),
{
    if s.len() == 0 {
        0
    } else if s[0] == c {
        0
    } else {
        1 + first_char(s.drop_first(), c)
    }
}

/// The fragments of `s` between its `c` separators, in order.
/// A string without `c` is one fragment; every separator, also a leading or
/// trailing one, bounds a (possibly empty) fragment.
pub open spec fn split_char(s: Seq<char>, c: char) -> Seq<Seq<char>>
    decreases s.len(),
{
    let i = first_char(s, c);
    if i < 0 || i >= s.len() {
        seq![s]
    } else {
        seq![s.subrange(0, i)] + split_char(s.subrange(i + 1, s.len() as int), c)
    }
}

/// The fragments put back together with `-` between them.
pub open spec fn join_dash(parts: Seq<Seq<char>>) -> Seq<char>
    decreases parts.len(),
{
    if parts.len() == 0 {
        Seq::empty()
    } else if parts.len() == 1 {
        parts[0]
    } else {
        parts[0] + seq!['-'] + join_dash(parts.drop_first())
    }
}

pub open spec fn is_digit(c: char) -> bool {
    '0' <= c && c <= '9'
}

pub open spec fn is_alpha(c: char) -> bool {
    ('a' <= c && c <= 'z') || ('A' <= c && c <= 'Z')
}

/// The whitespace that separates tokens of command output.
pub open spec fn is_space(c: char) -> bool {
    c == ' ' || c == '\t' || c == '\n' || c == '\r'
}

/// Characters a version fragment may contain past its start: digits,
/// lowercase letters, `.` and `_`.
pub open spec fn is_version_char(c: char) -> bool {
    is_digit(c) || ('a' <= c && c <= 'z') || c == '.' || c == '_'
}

pub open spec fn has_digit(s: Seq<char>) -> bool {
    exists|i: int| 0 <= i < s.len() && is_digit(s[i])
}

pub open spec fn all_alpha(s: Seq<char>) -> bool {
    forall|i: int| 0 <= i < s.len() ==> is_alpha(s[i])
}

/// A fragment that looks like a version: it starts with a digit, or with `v`
/// followed by a digit, and past the start holds only digits, lowercase
/// letters, `.` and `_`.
pub open spec fn is_version_frag(s: Seq<char>) -> bool {
    if s.len() == 0 {
        false
    } else if s[0] == 'v' {
        s.len() >= 2 && is_digit(s[1]) && (forall|i: int| 1 <= i < s.len() ==> is_version_char(
            s[i],
        ))
    } else {
        is_digit(s[0]) && (forall|i: int| 0 <= i < s.len() ==> is_version_char(s[i]))
    }
}

pub proof fn lemma_first_char_bounds(s: Seq<char>, c: char)
    ensures
        0 <= first_char(s, c) <= s.len(),
        forall|k: int| 0 <= k < first_char(s, c) ==> s[k] != c,
        first_char(s, c) < s.len() ==> s[first_char(s, c)] == c,
    decreases s.len(),
{
    if s.len() > 0 && s[0] != c {
        lemma_first_char_bounds(s.drop_first(), c);
        assert forall|k: int| 0 <= k < first_char(s, c) implies s[k] != c by {
            if k > 0 {
                assert(s.drop_first()[k - 1] != c);
            }
        }
    }
}

/// `first_char` is determined by where `c` stands: if it stands nowhere
/// before `i`, and `i` is either the end or a `c`, then `i` is it.
pub proof fn lemma_first_char_is(s: Seq<char>, c: char, i: int)
    requires
        0 <= i <= s.len(),
        forall|k: int| 0 <= k < i ==> s[k] != c,
        i < s.len() ==> s[i] == c,
    ensures
        first_char(s, c) == i,
    decreases s.len(),
{
    if s.len() > 0 && s[0] != c {
        assert(i != 0);
        assert(forall|k: int| 0 <= k < i - 1 ==> s.drop_first()[k] != c);
        lemma_first_char_is(s.drop_first(), c, i - 1);
    }
}

/// Appending one more fragment extends the join by a separator and the
/// fragment (or is the fragment itself, when nothing stood before it).
pub proof fn lemma_join_push(parts: Seq<Seq<char>>, x: Seq<char>)
    ensures
        join_dash(parts.push(x)) == if parts.len() == 0 {
            x
        } else {
            join_dash(parts) + seq!['-'] + x
        },
    decreases parts.len(),
{
    if parts.len() == 0 {
        assert(parts.push(x) =~= seq![x]);
    } else if parts.len() == 1 {
        let p = parts.push(x);
        assert(p.len() == 2);
        assert(p.drop_first() =~= seq![x]);
        assert(join_dash(seq![x]) == x);
        assert(join_dash(p) == p[0] + seq!['-'] + join_dash(p.drop_first()));
        assert(p[0] == parts[0]);
    } else {
        assert(parts.push(x).drop_first() =~= parts.drop_first().push(x));
        lemma_join_push(parts.drop_first(), x);
        assert(join_dash(parts) + seq!['-'] + x =~= parts[0] + seq!['-'] + (join_dash(
            parts.drop_first(),
        ) + seq!['-'] + x));
    }
}

/// Whether `c` is an ASCII decimal digit.
pub(crate) fn digit(c: char) -> (b: bool)
    ensures
        b == is_digit(c),
{
    '0' <= c && c <= '9'
}

/// Whether `c` is an ASCII letter.
pub(crate) fn alpha(c: char) -> (b: bool)
    ensures
        b == is_alpha(c),
{
    ('a' <= c && c <= 'z') || ('A' <= c && c <= 'Z')
}

/// Whether `c` separates tokens of command output.
pub(crate) fn space(c: char) -> (b: bool)
    ensures
        b == is_space(c),
{
    c == ' ' || c == '\t' || c == '\n' || c == '\r'
}

/// Whether `s` holds at least one ASCII digit.
pub(crate) fn has_digit_str(s: &str) -> (b: bool)
    ensures
        b == has_digit(s@),
{
    let n = s.unicode_len();
    let mut i: usize = 0;
    while i < n
        invariant
            i <= n,
            n == s@.len(),
            forall|k: int| 0 <= k < i ==> !is_digit(s@[k]),
        decreases n - i,
    {
        if digit(s.get_char(i)) {
            return true;
        }
        i = i + 1;
    }
    false
}

/// Whether every character of `s` is an ASCII letter (true of the empty
/// string).
pub(crate) fn all_alpha_str(s: &str) -> (b: bool)
    ensures
        b == all_alpha(s@),
{
    let n = s.unicode_len();
    let mut i: usize = 0;
    while i < n
        invariant
            i <= n,
            n == s@.len(),
            forall|k: int| 0 <= k < i ==> is_alpha(s@[k]),
        decreases n - i,
    {
        if !alpha(s.get_char(i)) {
            return false;
        }
        i = i + 1;
    }
    true
}

/// Whether the fragment `s` looks like a version (see [`is_version_frag`]).
pub(crate) fn version_frag(s: &str) -> (b: bool)
    ensures
        b == is_version_frag(s@),
{
    let n = s.unicode_len();
    if n == 0 {
        return false;
    }
    let c0 = s.get_char(0);
    let start: usize = if c0 == 'v' {
        if n < 2 || !digit(s.get_char(1)) {
            return false;
        }
        1
    } else {
        if !digit(c0) {
            return false;
        }
        0
    };
    let mut i: usize = start;
    while i < n
        invariant
            start <= i <= n,
            n == s@.len(),
            forall|k: int| start <= k < i ==> is_version_char(s@[k]),
        decreases n - i,
    {
        let c = s.get_char(i);
        if !(digit(c) || ('a' <= c && c <= 'z') || c == '.' || c == '_') {
            return false;
        }
        i = i + 1;
    }
    true
}

/// Index of the first `c` in `s`, or its length when there is none.
pub(crate) fn find_char(s: &str, c: char) -> (r: usize)
    ensures
        r == first_char(s@, c),
        r <= s@.len(),
{
    let n = s.unicode_len();
    let mut i: usize = 0;
    while i < n
        invariant
            i <= n,
            n == s@.len(),
            forall|k: int| 0 <= k < i ==> s@[k] != c,
        decreases n - i,
    {
        if s.get_char(i) == c {
            proof {
                lemma_first_char_is(s@, c, i as int);
            }
            return i;
        }
        i = i + 1;
    }
    proof {
        lemma_first_char_is(s@, c, n as int);
    }
    n
}

/// Index of the first `-` in `s`, or its length when there is none.
pub(crate) fn find_dash(s: &str) -> (r: usize)
    ensures
        r == first_char(s@, '-'),
        r <= s@.len(),
{
    find_char(s, '-')
}

/// The fragments of `s` between its `c` separators, as owned strings.
pub(crate) fn split_char_str(s: &str, c: char) -> (r: Vec<String>)
    ensures
        r.deep_view() == split_char(s@, c),
        r.len() >= 1,
    decreases s@.len(),
{
    let n = s.unicode_len();
    let i = find_char(s, c);
    proof {
        lemma_first_char_bounds(s@, c);
    }
    if i == n {
        let mut r: Vec<String> = Vec::new();
        r.push(s.to_owned());
        proof {
            assert(r.deep_view() =~= split_char(s@, c));
        }
        r
    } else {
        let head = s.substring_char(0, i).to_owned();
        let tail = s.substring_char(i + 1, n);
        let mut r = split_char_str(tail, c);
        r.insert(0, head);
        proof {
            assert(r.deep_view() =~= seq![s@.subrange(0, i as int)] + split_char(
                s@.subrange(i as int + 1, s@.len() as int),
                c,
            ));
        }
        r
    }
}

/// Index of the first whitespace character in `s`, or `s.len()` when there
/// is none.
pub open spec fn first_space(s: Seq<char>) -> int
    decreases s.len(),
{
    if s.len() == 0 {
        0
    } else if is_space(s[0]) {
        0
    } else {
        1 + first_space(s.drop_first())
    }
}

pub proof fn lemma_first_space_is(s: Seq<char>, i: int)
    requires
        0 <= i <= s.len(),
        forall|k: int| 0 <= k < i ==> !is_space(s[k]),
        i < s.len() ==> is_space(s[i]),
    ensures
        first_space(s) == i,
    decreases s.len(),
{
    if s.len() > 0 && !is_space(s[0]) {
        assert(i != 0);
        assert(forall|k: int| 0 <= k < i - 1 ==> !is_space(s.drop_first()[k]));
        lemma_first_space_is(s.drop_first(), i - 1);
    }
}

/// The maximal whitespace-free runs of `s`, in order; whitespace between,
/// before and after them is dropped, and no run is empty.
pub open spec fn tokens_of(s: Seq<char>) -> Seq<Seq<char>>
    decreases s.len(),
{
    if s.len() == 0 {
        Seq::empty()
    } else if is_space(s[0]) {
        tokens_of(s.drop_first())
    } else {
        let k = first_space(s);
        if k < 1 || k > s.len() {
            Seq::empty()
        } else {
            seq![s.subrange(0, k)] + tokens_of(s.subrange(k, s.len() as int))
        }
    }
}

/// Index of the first whitespace character in `s`, or its length when there
/// is none.
pub(crate) fn find_space(s: &str) -> (r: usize)
    ensures
        r == first_space(s@),
        r <= s@.len(),
        s@.len() > 0 && !is_space(s@[0]) ==> r >= 1,
{
    let n = s.unicode_len();
    let mut i: usize = 0;
    while i < n
        invariant
            i <= n,
            n == s@.len(),
            forall|k: int| 0 <= k < i ==> !is_space(s@[k]),
        decreases n - i,
    {
        if space(s.get_char(i)) {
            proof {
                lemma_first_space_is(s@, i as int);
            }
            return i;
        }
        i = i + 1;
    }
    proof {
        lemma_first_space_is(s@, n as int);
    }
    n
}

/// The whitespace-separated tokens of `s`, as owned strings.
pub(crate) fn tokens_vec(s: &str) -> (r: Vec<String>)
    ensures
        r.deep_view() == tokens_of(s@),
    decreases s@.len(),
{
    let n = s.unicode_len();
    if n == 0 {
        let r: Vec<String> = Vec::new();
        proof {
            assert(r.deep_view() =~= tokens_of(s@));
        }
        return r;
    }
    if space(s.get_char(0)) {
        let tail = s.substring_char(1, n);
        let r = tokens_vec(tail);
        proof {
            assert(tail@ =~= s@.drop_first());
        }
        return r;
    }
    let k = find_space(s);
    let head = s.substring_char(0, k).to_owned();
    let tail = s.substring_char(k, n);
    let mut r = tokens_vec(tail);
    r.insert(0, head);
    proof {
        assert(r.deep_view() =~= seq![s@.subrange(0, k as int)] + tokens_of(
            s@.subrange(k as int, s@.len() as int),
        ));
    }
    r
}

/// The fragments `parts[from..to]` joined back with `-` between them.
pub(crate) fn join_dash_range(parts: &Vec<String>, from: usize, to: usize) -> (r: String)
    requires
        from <= to <= parts.len(),
    ensures
        r@ == join_dash(parts.deep_view().subrange(from as int, to as int)),
{
    let mut r = String::new();
    let mut k = from;
    proof {
        assert(parts.deep_view().subrange(from as int, from as int) =~= Seq::empty());
    }
    while k < to
        invariant
            from <= k <= to <= parts.len(),
            r@ == join_dash(parts.deep_view().subrange(from as int, k as int)),
        decreases to - k,
    {
        proof {
            lemma_join_push(
                parts.deep_view().subrange(from as int, k as int),
                parts.deep_view()[k as int],
            );
            assert(parts.deep_view().subrange(from as int, k as int + 1) =~= parts.deep_view()
                .subrange(from as int, k as int).push(parts.deep_view()[k as int]));
        }
        if k > from {
            r.append("-");
            proof {
                reveal_strlit("-");
            }
        }
        r.append(parts[k].as_str());
        k = k + 1;
    }
    r
}

} // verus!
