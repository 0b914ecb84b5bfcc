//! Character-level text primitives shared by the job parser, the glob matcher and the
//! netlist writer: Unicode whitespace, trimming, searching and splitting, each stated over
//! `Seq<char>` and implemented over ranges of a character vector.
use vstd::prelude::*;

verus! {

/// `c` has the Unicode `White_Space` property (the set `char::is_whitespace` tests, and so
/// the set that `str::trim` and `str::split_whitespace` use).
pub open spec fn is_ws(c: char) -> bool {
    ||| '\u{9}' <= c <= '\u{d}'
    ||| c == ' '
    ||| c == '\u{85}'
    ||| c == '\u{a0}'
    ||| c == '\u{1680}'
    ||| '\u{2000}' <= c <= '\u{200a}'
    ||| c == '\u{2028}'
    ||| c == '\u{2029}'
    ||| c == '\u{202f}'
    ||| c == '\u{205f}'
    ||| c == '\u{3000}'
}

/// `s` without the leading characters that satisfy `p`.
pub open spec fn strip_lead(s: Seq<char>, p: spec_fn(char) -> bool) -> Seq<char>
    decreases s.len(),
{
    if s.len() > 0 && p(s[0]) {
        strip_lead(s.drop_first(), p)
    } else {
        s
    }
}

/// `s` without the trailing characters that satisfy `p`.
pub open spec fn strip_trail(s: Seq<char>, p: spec_fn(char) -> bool) -> Seq<char>
    decreases s.len(),
{
    if s.len() > 0 && p(s.last()) {
        strip_trail(s.drop_last(), p)
    } else {
        s
    }
}

/// `s` without leading and trailing whitespace (`str::trim`).
pub open spec fn trim(s: Seq<char>) -> Seq<char> {
    strip_trail(strip_lead(s, |c: char| is_ws(c)), |c: char| is_ws(c))
}

/// `s` without leading and trailing `*` (`str::trim_matches('*')`).
pub open spec fn trim_stars(s: Seq<char>) -> Seq<char> {
    strip_trail(strip_lead(s, |c: char| c == '*'), |c: char| c == '*')
}

/// Index of the first `c` in `s`, or `s.len()` when `s` holds none.
pub open spec fn pos_of(s: Seq<char>, c: char) -> int
    decreases s.len(),
{
    if s.len() == 0 {
        0
    } else if s[0] == c {
        0
    } else {
        1 + pos_of(s.drop_first(), c)
    }
}

/// The pieces of `s` between separators (`str::split` with a character predicate): always at
/// least one piece, empty pieces kept.
pub open spec fn split_by(s: Seq<char>, sep: spec_fn(char) -> bool) -> Seq<Seq<char>>
    decreases s.len(),
{
    if s.len() == 0 {
        seq![Seq::<char>::empty()]
    } else {
        let r = split_by(s.drop_last(), sep);
        if sep(s.last()) {
            r.push(Seq::<char>::empty())
        } else {
            r.update(r.len() - 1, r.last().push(s.last()))
        }
    }
}

/// The non-empty pieces of `ps`, in order.
pub open spec fn non_empty(ps: Seq<Seq<char>>) -> Seq<Seq<char>>
    decreases ps.len(),
{
    if ps.len() == 0 {
        ps
    } else if ps.last().len() > 0 {
        non_empty(ps.drop_last()).push(ps.last())
    } else {
        non_empty(ps.drop_last())
    }
}

/// Each piece trimmed.
pub open spec fn trim_all(ps: Seq<Seq<char>>) -> Seq<Seq<char>> {
    ps.map_values(|p: Seq<char>| trim(p))
}

/// The whitespace-separated words of `s` (`str::split_whitespace`).
pub open spec fn words(s: Seq<char>) -> Seq<Seq<char>> {
    non_empty(split_by(s, |c: char| is_ws(c)))
}

/// The views of a sequence of strings.
pub open spec fn strs(v: Seq<String>) -> Seq<Seq<char>> {
    v.map_values(|x: String| x@)
}

/// `p` is a prefix of `s`.
pub open spec fn has_prefix(s: Seq<char>, p: Seq<char>) -> bool {
    p.len() <= s.len() && s.take(p.len() as int) == p
}

/// `p` is a suffix of `s`.
pub open spec fn has_suffix(s: Seq<char>, p: Seq<char>) -> bool {
    p.len() <= s.len() && s.skip(s.len() - p.len()) == p
}

/// `p` occurs in `s` at index `i`.
pub open spec fn occurs_at(s: Seq<char>, p: Seq<char>, i: int) -> bool {
    0 <= i && i + p.len() <= s.len() && s.subrange(i, i + p.len()) == p
}

/// `p` occurs somewhere in `s` (`str::contains` with a string pattern).
pub open spec fn has_infix(s: Seq<char>, p: Seq<char>) -> bool {
    exists|i: int| occurs_at(s, p, i)
}

/// `pos_of` is the first place `k` that holds `c`, or the end when none does.
pub proof fn lemma_pos_of(s: Seq<char>, c: char, k: int)
    requires
        0 <= k <= s.len(),
        forall|j: int| 0 <= j < k ==> s[j] != c,
        k == s.len() || s[k] == c,
    ensures
        pos_of(s, c) == k,
    decreases s.len(),
{
    if s.len() > 0 && k > 0 {
        lemma_pos_of(s.drop_first(), c, k - 1);
    }
}

/// Stripping from the front drops exactly the leading run `s[..k]` of matching characters.
pub proof fn lemma_strip_lead(s: Seq<char>, p: spec_fn(char) -> bool, k: int)
    requires
        0 <= k <= s.len(),
        forall|j: int| 0 <= j < k ==> p(s[j]),
        k == s.len() || !p(s[k]),
    ensures
        strip_lead(s, p) == s.skip(k),
    decreases s.len(),
{
    if k == 0 {
        assert(s.skip(0) =~= s);
    } else {
        lemma_strip_lead(s.drop_first(), p, k - 1);
        assert(s.drop_first().skip(k - 1) =~= s.skip(k));
    }
}

/// Stripping from the back drops exactly the trailing run `s[k..]` of matching characters.
pub proof fn lemma_strip_trail(s: Seq<char>, p: spec_fn(char) -> bool, k: int)
    requires
        0 <= k <= s.len(),
        forall|j: int| k <= j < s.len() ==> p(s[j]),
        k == 0 || !p(s[k - 1]),
    ensures
        strip_trail(s, p) == s.take(k),
    decreases s.len(),
{
    if k == s.len() {
        assert(s.take(k) =~= s);
    } else {
        lemma_strip_trail(s.drop_last(), p, k);
        assert(s.drop_last().take(k) =~= s.take(k));
    }
}

/// A text with no separator is one piece.
pub proof fn lemma_split_by_single(s: Seq<char>, sep: spec_fn(char) -> bool)
    requires
        free_of(s, sep),
    ensures
        split_by(s, sep) == seq![s],
    decreases s.len(),
{
    if s.len() > 0 {
        let t = s.drop_last();
        assert(free_of(t, sep)) by {
            assert forall|i: int| 0 <= i < t.len() implies !sep(#[trigger] t[i]) by {
                assert(t[i] == s[i]);
            }
        }
        lemma_split_by_single(t, sep);
        assert(!sep(s[s.len() - 1]));
        assert(t.push(s.last()) =~= s);
        assert(seq![t].update(0, t.push(s.last())) =~= seq![s]);
    } else {
        assert(s =~= Seq::<char>::empty());
    }
}

/// `split_by` always yields at least one piece.
pub proof fn lemma_split_by_len(s: Seq<char>, sep: spec_fn(char) -> bool)
    ensures
        split_by(s, sep).len() >= 1,
    decreases s.len(),
{
    if s.len() > 0 {
        lemma_split_by_len(s.drop_last(), sep);
    }
}

/// Extending a text by one character either closes the last piece (a separator) or extends
/// it.
pub proof fn lemma_split_by_step(s: Seq<char>, sep: spec_fn(char) -> bool, i: int)
    requires
        0 <= i < s.len(),
    ensures
        split_by(s.take(i + 1), sep) == (if sep(s[i]) {
            split_by(s.take(i), sep).push(Seq::<char>::empty())
        } else {
            split_by(s.take(i), sep).update(
                split_by(s.take(i), sep).len() - 1,
                split_by(s.take(i), sep).last().push(s[i]),
            )
        }),
{
    assert(s.take(i + 1).drop_last() =~= s.take(i));
}

/// The characters of `s`, in order.
pub fn chars_of(s: &str) -> (v: Vec<char>)
    ensures
        v@ == s@,
{
    let mut v: Vec<char> = Vec::new();
    for c in it: s.chars()
        invariant
            v@ == it.seq().take(it.index() as int),
    {
        v.push(c);
    }
    v
}

/// Whether `c` is Unicode whitespace.
pub fn is_whitespace(c: char) -> (b: bool)
    ensures
        b == is_ws(c),
{
    ('\u{9}' <= c && c <= '\u{d}') || c == ' ' || c == '\u{85}' || c == '\u{a0}' || c == '\u{1680}'
        || ('\u{2000}' <= c && c <= '\u{200a}') || c == '\u{2028}' || c == '\u{2029}' || c
        == '\u{202f}' || c == '\u{205f}' || c == '\u{3000}'
}

/// The index of the first `c` in `cs[lo..hi]`, or `hi` when there is none.
pub fn find_char(cs: &Vec<char>, lo: usize, hi: usize, c: char) -> (p: usize)
    requires
        lo <= hi <= cs.len(),
    ensures
        lo <= p <= hi,
        p - lo == pos_of(cs@.subrange(lo as int, hi as int), c),
{
    let mut i = lo;
    while i < hi && cs[i] != c
        invariant
            lo <= i <= hi <= cs.len(),
            forall|j: int| lo <= j < i ==> cs@[j] != c,
        decreases hi - i,
    {
        i = i + 1;
    }
    proof {
        lemma_pos_of(cs@.subrange(lo as int, hi as int), c, i - lo);
    }
    i
}

/// The bounds of `cs[lo..hi]` with leading and trailing whitespace removed.
pub fn trim_range(cs: &Vec<char>, lo: usize, hi: usize) -> (r: (usize, usize))
    requires
        lo <= hi <= cs.len(),
    ensures
        lo <= r.0 <= r.1 <= hi,
        cs@.subrange(r.0 as int, r.1 as int) == trim(cs@.subrange(lo as int, hi as int)),
{
    let ghost p = |c: char| is_ws(c);
    let mut a = lo;
    while a < hi && is_whitespace(cs[a])
        invariant
            lo <= a <= hi <= cs.len(),
            forall|j: int| lo <= j < a ==> is_ws(cs@[j]),
        decreases hi - a,
    {
        a = a + 1;
    }
    let mut b = hi;
    while b > a && is_whitespace(cs[b - 1])
        invariant
            lo <= a <= b <= hi <= cs.len(),
            forall|j: int| b <= j < hi ==> is_ws(cs@[j]),
        decreases b - a,
    {
        b = b - 1;
    }
    proof {
        let s = cs@.subrange(lo as int, hi as int);
        lemma_strip_lead(s, p, a - lo);
        assert(s.skip(a - lo) =~= cs@.subrange(a as int, hi as int));
        let t = cs@.subrange(a as int, hi as int);
        lemma_strip_trail(t, p, b - a);
        assert(t.take(b - a) =~= cs@.subrange(a as int, b as int));
    }
    (a, b)
}

/// The bounds of `cs[lo..hi]` with leading and trailing `*` removed.
pub fn trim_stars_range(cs: &Vec<char>, lo: usize, hi: usize) -> (r: (usize, usize))
    requires
        lo <= hi <= cs.len(),
    ensures
        lo <= r.0 <= r.1 <= hi,
        cs@.subrange(r.0 as int, r.1 as int) == trim_stars(cs@.subrange(lo as int, hi as int)),
{
    let ghost p = |c: char| c == '*';
    let mut a = lo;
    while a < hi && cs[a] == '*'
        invariant
            lo <= a <= hi <= cs.len(),
            forall|j: int| lo <= j < a ==> cs@[j] == '*',
        decreases hi - a,
    {
        a = a + 1;
    }
    let mut b = hi;
    while b > a && cs[b - 1] == '*'
        invariant
            lo <= a <= b <= hi <= cs.len(),
            forall|j: int| b <= j < hi ==> cs@[j] == '*',
        decreases b - a,
    {
        b = b - 1;
    }
    proof {
        let s = cs@.subrange(lo as int, hi as int);
        lemma_strip_lead(s, p, a - lo);
        assert(s.skip(a - lo) =~= cs@.subrange(a as int, hi as int));
        let t = cs@.subrange(a as int, hi as int);
        lemma_strip_trail(t, p, b - a);
        assert(t.take(b - a) =~= cs@.subrange(a as int, b as int));
    }
    (a, b)
}

/// Whether `t[i..i + (b - a)]` holds the same characters as `p[a..b]`.
pub fn matches_at(t: &Vec<char>, p: &Vec<char>, a: usize, b: usize, i: usize) -> (r: bool)
    requires
        a <= b <= p.len(),
        i + (b - a) <= t.len(),
    ensures
        r == (t@.subrange(i as int, i + (b - a)) == p@.subrange(a as int, b as int)),
{
    let m = b - a;
    let ghost ts = t@.subrange(i as int, i + m);
    let ghost ps = p@.subrange(a as int, b as int);
    let mut j: usize = 0;
    while j < m
        invariant
            m == b - a,
            a <= b <= p.len(),
            i + m <= t.len(),
            j <= m,
            ts == t@.subrange(i as int, i + m),
            ps == p@.subrange(a as int, b as int),
            forall|k: int| 0 <= k < j ==> ts[k] == ps[k],
        decreases m - j,
    {
        if t[i + j] != p[a + j] {
            assert(ts[j as int] != ps[j as int]);
            return false;
        }
        j = j + 1;
    }
    assert(ts =~= ps);
    true
}

/// The string holding the characters `lo..hi` of `s`.
pub fn string_of(s: &str, lo: usize, hi: usize) -> (r: String)
    requires
        lo <= hi <= s@.len(),
    ensures
        r@ == s@.subrange(lo as int, hi as int),
{
    String::from_str(s.substring_char(lo, hi))
}

/// Whether two strings hold the same characters.
pub fn str_eq(a: &str, b: &str) -> (r: bool)
    ensures
        r == (a@ == b@),
{
    let n = a.unicode_len();
    if n != b.unicode_len() {
        return false;
    }
    let mut i: usize = 0;
    while i < n
        invariant
            n == a@.len() == b@.len(),
            i <= n,
            forall|j: int| 0 <= j < i ==> a@[j] == b@[j],
        decreases n - i,
    {
        if a.get_char(i) != b.get_char(i) {
            return false;
        }
        i = i + 1;
    }
    assert(a@ =~= b@);
    true
}

/// The separators of a `dont_touch:` list: a comma or a space.
pub open spec fn is_item_sep(c: char) -> bool {
    c == ',' || c == ' '
}

/// The items of a `dont_touch:` value: split at commas and spaces, each trimmed, empty ones
/// dropped.
pub open spec fn items(s: Seq<char>) -> Seq<Seq<char>> {
    non_empty(trim_all(split_by(s, |c: char| is_item_sep(c))))
}

proof fn lemma_non_empty_push(ps: Seq<Seq<char>>, p: Seq<char>)
    ensures
        non_empty(ps.push(p)) == (if p.len() > 0 {
            non_empty(ps).push(p)
        } else {
            non_empty(ps)
        }),
{
    assert(ps.push(p).drop_last() =~= ps);
}

proof fn lemma_strs_push(v: Seq<String>, x: String)
    ensures
        strs(v.push(x)) == strs(v).push(x@),
{
    assert(strs(v.push(x)) =~= strs(v).push(x@));
}

/// `non_empty` keeps only non-empty pieces.
pub proof fn lemma_non_empty_pieces(ps: Seq<Seq<char>>)
    ensures
        forall|k: int| 0 <= k < non_empty(ps).len() ==> (#[trigger] non_empty(ps)[k]).len() > 0,
    decreases ps.len(),
{
    if ps.len() > 0 {
        lemma_non_empty_pieces(ps.drop_last());
        let r = non_empty(ps.drop_last());
        if ps.last().len() > 0 {
            assert forall|k: int| 0 <= k < r.push(ps.last()).len() implies (#[trigger] r.push(
                ps.last(),
            )[k]).len() > 0 by {
                if k < r.len() {
                    assert(r.push(ps.last())[k] == r[k]);
                }
            }
        }
    }
}

/// No character of `s` satisfies `p`.
pub open spec fn free_of(s: Seq<char>, p: spec_fn(char) -> bool) -> bool {
    forall|i: int| 0 <= i < s.len() ==> !p(#[trigger] s[i])
}

/// Stripping characters off either end keeps a text free of what it was free of.
pub proof fn lemma_strip_free(s: Seq<char>, p: spec_fn(char) -> bool, q: spec_fn(char) -> bool)
    requires
        free_of(s, q),
    ensures
        free_of(strip_lead(s, p), q),
        free_of(strip_trail(s, p), q),
    decreases s.len(),
{
    if s.len() > 0 {
        assert(free_of(s.drop_first(), q)) by {
            assert forall|i: int| 0 <= i < s.drop_first().len() implies !q(
                #[trigger] s.drop_first()[i],
            ) by {
                assert(s.drop_first()[i] == s[i + 1]);
            }
        }
        assert(free_of(s.drop_last(), q)) by {
            assert forall|i: int| 0 <= i < s.drop_last().len() implies !q(
                #[trigger] s.drop_last()[i],
            ) by {
                assert(s.drop_last()[i] == s[i]);
            }
        }
        lemma_strip_free(s.drop_first(), p, q);
        lemma_strip_free(s.drop_last(), p, q);
    }
}

/// Trimming keeps a text free of what it was free of.
pub proof fn lemma_trim_free(s: Seq<char>, q: spec_fn(char) -> bool)
    requires
        free_of(s, q),
    ensures
        free_of(trim(s), q),
{
    lemma_strip_free(s, |c: char| is_ws(c), q);
    lemma_strip_free(strip_lead(s, |c: char| is_ws(c)), |c: char| is_ws(c), q);
}

/// A prefix or a suffix of a text is free of what the text is free of.
pub proof fn lemma_take_skip_free(s: Seq<char>, n: int, q: spec_fn(char) -> bool)
    requires
        free_of(s, q),
        0 <= n <= s.len(),
    ensures
        free_of(s.take(n), q),
        free_of(s.skip(n), q),
{
    assert forall|i: int| 0 <= i < s.take(n).len() implies !q(#[trigger] s.take(n)[i]) by {
        assert(s.take(n)[i] == s[i]);
    }
    assert forall|i: int| 0 <= i < s.skip(n).len() implies !q(#[trigger] s.skip(n)[i]) by {
        assert(s.skip(n)[i] == s[i + n]);
    }
}

/// The text before the first `c` holds no `c`.
pub proof fn lemma_before_free(s: Seq<char>, c: char)
    ensures
        0 <= pos_of(s, c) <= s.len(),
        free_of(s.take(pos_of(s, c)), |x: char| x == c),
    decreases s.len(),
{
    if s.len() > 0 && s[0] != c {
        let t = s.drop_first();
        lemma_before_free(t, c);
        let p = pos_of(t, c);
        assert forall|i: int| 0 <= i < s.take(p + 1).len() implies !((|x: char| x == c)(
            #[trigger] s.take(p + 1)[i],
        )) by {
            if i > 0 {
                assert(s.take(p + 1)[i] == t.take(p)[i - 1]);
            }
        }
    }
}

/// Every piece of `split_by(s, sep)` holds no separator, and holds nothing that `s` does not.
pub proof fn lemma_split_by_free(s: Seq<char>, sep: spec_fn(char) -> bool, q: spec_fn(char) -> bool)
    ensures
        forall|k: int| 0 <= k < split_by(s, sep).len() ==> free_of(#[trigger] split_by(s, sep)[k], sep),
        free_of(s, q) ==> forall|k: int|
            0 <= k < split_by(s, sep).len() ==> free_of(#[trigger] split_by(s, sep)[k], q),
    decreases s.len(),
{
    if s.len() > 0 {
        let t = s.drop_last();
        let r = split_by(t, sep);
        lemma_split_by_len(t, sep);
        lemma_split_by_free(t, sep, q);
        if free_of(s, q) {
            assert forall|i: int| 0 <= i < t.len() implies !q(#[trigger] t[i]) by {
                assert(t[i] == s[i]);
            }
        }
        if !sep(s.last()) {
            let x = r.last().push(s.last());
            assert(free_of(x, sep)) by {
                assert forall|i: int| 0 <= i < x.len() implies !sep(#[trigger] x[i]) by {
                    if i < r.last().len() {
                        assert(x[i] == r.last()[i]);
                    }
                }
            }
            if free_of(s, q) {
                assert(free_of(x, q)) by {
                    assert forall|i: int| 0 <= i < x.len() implies !q(#[trigger] x[i]) by {
                        if i < r.last().len() {
                            assert(x[i] == r.last()[i]);
                        } else {
                            assert(x[i] == s[s.len() - 1]);
                        }
                    }
                }
            }
        }
    }
}

/// `non_empty` keeps only pieces of the list it is given.
pub proof fn lemma_non_empty_free(ps: Seq<Seq<char>>, q: spec_fn(char) -> bool)
    requires
        forall|k: int| 0 <= k < ps.len() ==> free_of(#[trigger] ps[k], q),
    ensures
        forall|k: int| 0 <= k < non_empty(ps).len() ==> free_of(#[trigger] non_empty(ps)[k], q),
    decreases ps.len(),
{
    if ps.len() > 0 {
        assert forall|k: int| 0 <= k < ps.drop_last().len() implies free_of(
            #[trigger] ps.drop_last()[k],
            q,
        ) by {
            assert(ps.drop_last()[k] == ps[k]);
        }
        lemma_non_empty_free(ps.drop_last(), q);
        let r = non_empty(ps.drop_last());
        if ps.last().len() > 0 {
            assert(free_of(ps[ps.len() - 1], q));
            assert forall|k: int| 0 <= k < r.push(ps.last()).len() implies free_of(
                #[trigger] r.push(ps.last())[k],
                q,
            ) by {
                if k < r.len() {
                    assert(r.push(ps.last())[k] == r[k]);
                }
            }
        }
    }
}

/// The words of a text hold no whitespace, and nothing the text does not hold.
pub proof fn lemma_words_free(v: Seq<char>, q: spec_fn(char) -> bool)
    ensures
        forall|k: int| 0 <= k < words(v).len() ==> free_of(#[trigger] words(v)[k], |c: char| is_ws(c)),
        free_of(v, q) ==> forall|k: int| 0 <= k < words(v).len() ==> free_of(#[trigger] words(v)[k], q),
{
    let ws = |c: char| is_ws(c);
    lemma_split_by_free(v, ws, q);
    lemma_non_empty_free(split_by(v, ws), ws);
    if free_of(v, q) {
        lemma_non_empty_free(split_by(v, ws), q);
    }
}

/// Text ended by a separator and followed by a piece without one splits into the pieces of
/// the text and then that piece.
pub proof fn lemma_split_by_append(a: Seq<char>, c: char, b: Seq<char>, sep: spec_fn(char) -> bool)
    requires
        sep(c),
        free_of(b, sep),
    ensures
        split_by(a + seq![c] + b, sep) == split_by(a, sep).push(b),
    decreases b.len(),
{
    if b.len() == 0 {
        assert((a + seq![c] + b).drop_last() =~= a);
        assert((a + seq![c] + b).last() == c);
        assert(b =~= Seq::<char>::empty());
    } else {
        let t = b.drop_last();
        assert(free_of(t, sep)) by {
            assert forall|i: int| 0 <= i < t.len() implies !sep(#[trigger] t[i]) by {
                assert(t[i] == b[i]);
            }
        }
        lemma_split_by_append(a, c, t, sep);
        assert((a + seq![c] + b).drop_last() =~= a + seq![c] + t);
        assert((a + seq![c] + b).last() == b.last());
        assert(!sep(b[b.len() - 1]));
        assert(t.push(b.last()) =~= b);
        lemma_split_by_len(a, sep);
        assert(split_by(a, sep).push(t).update(split_by(a, sep).len() as int, t.push(b.last()))
            =~= split_by(a, sep).push(b));
    }
}

/// The whitespace-separated words of `s[lo..hi]`, where `cs` holds the characters of `s`.
pub fn split_words(s: &str, cs: &Vec<char>, lo: usize, hi: usize) -> (r: Vec<String>)
    requires
        cs@ == s@,
        lo <= hi <= cs.len(),
    ensures
        strs(r@) == words(cs@.subrange(lo as int, hi as int)),
{
    let ghost t = cs@.subrange(lo as int, hi as int);
    let ghost sep = |c: char| is_ws(c);
    let ghost mut done: Seq<Seq<char>> = Seq::empty();
    let mut r: Vec<String> = Vec::new();
    let mut st = lo;
    let mut i = lo;
    assert(t.take(0) =~= Seq::<char>::empty());
    assert(cs@.subrange(lo as int, lo as int) =~= Seq::<char>::empty());
    assert(split_by(t.take(0), sep) =~= done.push(cs@.subrange(st as int, i as int)));
    while i < hi
        invariant
            cs@ == s@,
            lo <= st <= i <= hi <= cs.len(),
            t == cs@.subrange(lo as int, hi as int),
            sep == (|c: char| is_ws(c)),
            split_by(t.take(i - lo), sep) == done.push(cs@.subrange(st as int, i as int)),
            strs(r@) == non_empty(done),
        decreases hi - i,
    {
        proof {
            lemma_split_by_step(t, sep, i - lo);
        }
        if is_whitespace(cs[i]) {
            proof {
                lemma_non_empty_push(done, cs@.subrange(st as int, i as int));
            }
            if st < i {
                let w = string_of(s, st, i);
                proof {
                    lemma_strs_push(r@, w);
                }
                r.push(w);
            }
            proof {
                done = done.push(cs@.subrange(st as int, i as int));
            }
            st = i + 1;
            assert(cs@.subrange(st as int, st as int) =~= Seq::<char>::empty());
        } else {
            assert(cs@.subrange(st as int, i + 1) =~= cs@.subrange(st as int, i as int).push(
                cs@[i as int],
            ));
        }
        i = i + 1;
    }
    proof {
        assert(t.take(hi - lo) =~= t);
        lemma_non_empty_push(done, cs@.subrange(st as int, hi as int));
    }
    if st < hi {
        let w = string_of(s, st, hi);
        proof {
            lemma_strs_push(r@, w);
        }
        r.push(w);
    }
    r
}

/// The items of the `dont_touch:` value `s[lo..hi]`, where `cs` holds the characters of `s`.
pub fn split_items(s: &str, cs: &Vec<char>, lo: usize, hi: usize) -> (r: Vec<String>)
    requires
        cs@ == s@,
        lo <= hi <= cs.len(),
    ensures
        strs(r@) == items(cs@.subrange(lo as int, hi as int)),
{
    let ghost t = cs@.subrange(lo as int, hi as int);
    let ghost sep = |c: char| is_item_sep(c);
    let ghost mut done: Seq<Seq<char>> = Seq::empty();
    let mut r: Vec<String> = Vec::new();
    let mut st = lo;
    let mut i = lo;
    assert(t.take(0) =~= Seq::<char>::empty());
    assert(cs@.subrange(lo as int, lo as int) =~= Seq::<char>::empty());
    assert(split_by(t.take(0), sep) =~= done.push(cs@.subrange(st as int, i as int)));
    assert(trim_all(done) =~= Seq::<Seq<char>>::empty());
    while i < hi
        invariant
            cs@ == s@,
            lo <= st <= i <= hi <= cs.len(),
            t == cs@.subrange(lo as int, hi as int),
            sep == (|c: char| is_item_sep(c)),
            split_by(t.take(i - lo), sep) == done.push(cs@.subrange(st as int, i as int)),
            strs(r@) == non_empty(trim_all(done)),
        decreases hi - i,
    {
        proof {
            lemma_split_by_step(t, sep, i - lo);
        }
        if cs[i] == ',' || cs[i] == ' ' {
            let (a, b) = trim_range(cs, st, i);
            proof {
                let p = cs@.subrange(st as int, i as int);
                assert(trim_all(done.push(p)) =~= trim_all(done).push(trim(p)));
                lemma_non_empty_push(trim_all(done), trim(p));
            }
            if a < b {
                let w = string_of(s, a, b);
                proof {
                    lemma_strs_push(r@, w);
                }
                r.push(w);
            }
            proof {
                done = done.push(cs@.subrange(st as int, i as int));
            }
            st = i + 1;
            assert(cs@.subrange(st as int, st as int) =~= Seq::<char>::empty());
        } else {
            assert(cs@.subrange(st as int, i + 1) =~= cs@.subrange(st as int, i as int).push(
                cs@[i as int],
            ));
        }
        i = i + 1;
    }
    let (a, b) = trim_range(cs, st, hi);
    proof {
        assert(t.take(hi - lo) =~= t);
        let p = cs@.subrange(st as int, hi as int);
        assert(trim_all(done.push(p)) =~= trim_all(done).push(trim(p)));
        lemma_non_empty_push(trim_all(done), trim(p));
    }
    if a < b {
        let w = string_of(s, a, b);
        proof {
            lemma_strs_push(r@, w);
        }
        r.push(w);
    }
    r
}

} // verus!
