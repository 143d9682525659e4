//! Small text tools: white space, trimming, splitting, searching.
//!
//! Texts are seen as sequences of characters; byte offsets never appear.
use vstd::prelude::*;

verus! {

/// The characters with the Unicode property `White_Space`.
pub open spec fn is_space(c: char) -> bool {
    let n = c as u32;
    ||| 0x09 <= n <= 0x0D
    ||| n == 0x20
    ||| n == 0x85
    ||| n == 0xA0
    ||| n == 0x1680
    ||| 0x2000 <= n <= 0x200A
    ||| n == 0x2028
    ||| n == 0x2029
    ||| n == 0x202F
    ||| n == 0x205F
    ||| n == 0x3000
}

/// Is `c` white space?
pub fn char_is_space(c: char) -> (b: bool)
    ensures
        b == is_space(c),
{
    let n: u32 = c as u32;
    (0x09 <= n && n <= 0x0D) || n == 0x20 || n == 0x85 || n == 0xA0 || n == 0x1680 || (0x2000 <= n
        && n <= 0x200A) || n == 0x2028 || n == 0x2029 || n == 0x202F || n == 0x205F || n == 0x3000
}

/// `s` without its leading white space.
pub open spec fn trim_start(s: Seq<char>) -> Seq<char>
    decreases s.len(),
{
    if s.len() > 0 && is_space(s[0]) {
        trim_start(s.skip(1))
    } else {
        s
    }
}

/// `s` without its trailing white space.
pub open spec fn trim_end(s: Seq<char>) -> Seq<char>
    decreases s.len(),
{
    if s.len() > 0 && is_space(s.last()) {
        trim_end(s.drop_last())
    } else {
        s
    }
}

/// `s` without the white space at either end.
pub open spec fn trimmed(s: Seq<char>) -> Seq<char> {
    trim_end(trim_start(s))
}

/// The characters of a text.
pub fn chars_of(s: &str) -> (v: Vec<char>)
    ensures
        v@ == s@,
{
    let mut v: Vec<char> = Vec::new();
    for c in it: s.chars()
        invariant
            it.seq() == s@,
            v@ == s@.take(it.index() as int),
    {
        v.push(c);
    }
    proof {
        assert(s@.take(s@.len() as int) == s@);
    }
    v
}

/// How far the first `c` lies from the start of `s`; the length of `s` where there is none.
pub open spec fn first_of(s: Seq<char>, c: char) -> nat
    decreases s.len(),
{
    if s.len() == 0 || s[0] == c {
        0
    } else {
        1 + first_of(s.skip(1), c)
    }
}

/// How far the first white space lies from the start of `s`; the length of `s` where there is none.
pub open spec fn first_space(s: Seq<char>) -> nat
    decreases s.len(),
{
    if s.len() == 0 || is_space(s[0]) {
        0
    } else {
        1 + first_space(s.skip(1))
    }
}

/// `first_of` stays within the text.
pub proof fn lemma_first_of(s: Seq<char>, c: char)
    ensures
        first_of(s, c) <= s.len(),
        first_of(s, c) < s.len() ==> s[first_of(s, c) as int] == c,
        forall|i: int| 0 <= i < first_of(s, c) ==> s[i] != c,
    decreases s.len(),
{
    if s.len() > 0 && s[0] != c {
        lemma_first_of(s.skip(1), c);
        assert forall|i: int| 0 <= i < first_of(s, c) implies s[i] != c by {
            if i > 0 {
                assert(s.skip(1)[i - 1] == s[i]);
            }
        }
    }
}

/// `first_space` stays within the text.
pub proof fn lemma_first_space(s: Seq<char>)
    ensures
        first_space(s) <= s.len(),
        s.len() > 0 && !is_space(s[0]) ==> first_space(s) > 0,
    decreases s.len(),
{
    if s.len() > 0 && !is_space(s[0]) {
        lemma_first_space(s.skip(1));
    }
}

/// `trim_start` never lengthens a text and leaves no white space in front.
pub proof fn lemma_trim_start(s: Seq<char>)
    ensures
        trim_start(s).len() <= s.len(),
        trim_start(s).len() > 0 ==> !is_space(trim_start(s)[0]),
    decreases s.len(),
{
    if s.len() > 0 && is_space(s[0]) {
        lemma_trim_start(s.skip(1));
    }
}

/// The pieces of `s` between the occurrences of `c`.
pub open spec fn split_on(s: Seq<char>, c: char) -> Seq<Seq<char>>
    decreases s.len(),
{
    let n = first_of(s, c);
    if n >= s.len() {
        seq![s]
    } else {
        seq![s.take(n as int)] + split_on(s.skip(n as int + 1), c)
    }
}

/// The maximal runs of `s` without white space.
pub open spec fn words(s: Seq<char>) -> Seq<Seq<char>>
    decreases s.len(),
    via words_shrinks
{
    let a = trim_start(s);
    if a.len() == 0 {
        Seq::empty()
    } else {
        let n = first_space(a);
        seq![a.take(n as int)] + words(a.skip(n as int))
    }
}

#[via_fn]
proof fn words_shrinks(s: Seq<char>) {
    lemma_trim_start(s);
    lemma_first_space(trim_start(s));
}

/// Does `pat` open `s`?
pub open spec fn opens(s: Seq<char>, pat: Seq<char>) -> bool {
    s.len() >= pat.len() && s.take(pat.len() as int) == pat
}

/// Does `pat` occur in `s` at `i`?
pub open spec fn occurs_at(s: Seq<char>, pat: Seq<char>, i: int) -> bool {
    0 <= i && i + pat.len() <= s.len() && s.subrange(i, i + pat.len()) == pat
}

/// Does `pat` occur anywhere in `s`?
pub open spec fn occurs(s: Seq<char>, pat: Seq<char>) -> bool {
    exists|i: int| occurs_at(s, pat, i)
}

/// The code of `c`, with `A` to `Z` taken to `a` to `z`.
pub open spec fn lower_code(c: char) -> u32 {
    if 'A' <= c <= 'Z' {
        (c as u32 + 32) as u32
    } else {
        c as u32
    }
}

/// Does `prefix` open `s` when ASCII case is ignored?
pub open spec fn opens_ci(s: Seq<char>, prefix: Seq<char>) -> bool {
    &&& s.len() >= prefix.len()
    &&& forall|i: int|
        #![trigger s[i]]
        0 <= i < prefix.len() ==> lower_code(s[i]) == lower_code(prefix[i])
}

/// The first place at or after `lo` and before `hi` that holds no white space.
pub fn skip_space(cs: &Vec<char>, lo: usize, hi: usize) -> (i: usize)
    requires
        lo <= hi <= cs@.len(),
    ensures
        lo <= i <= hi,
        cs@.subrange(i as int, hi as int) == trim_start(cs@.subrange(lo as int, hi as int)),
{
    let mut i: usize = lo;
    while i < hi && char_is_space(cs[i])
        invariant
            lo <= i <= hi <= cs@.len(),
            trim_start(cs@.subrange(i as int, hi as int)) == trim_start(
                cs@.subrange(lo as int, hi as int),
            ),
        decreases hi - i,
    {
        assert(cs@.subrange(i as int, hi as int).skip(1) == cs@.subrange(i + 1, hi as int));
        i += 1;
    }
    i
}

/// The end of the text before `hi` once trailing white space is left off.
pub fn skip_space_back(cs: &Vec<char>, lo: usize, hi: usize) -> (j: usize)
    requires
        lo <= hi <= cs@.len(),
    ensures
        lo <= j <= hi,
        cs@.subrange(lo as int, j as int) == trim_end(cs@.subrange(lo as int, hi as int)),
{
    let mut j: usize = hi;
    while lo < j && char_is_space(cs[j - 1])
        invariant
            lo <= j <= hi <= cs@.len(),
            trim_end(cs@.subrange(lo as int, j as int)) == trim_end(
                cs@.subrange(lo as int, hi as int),
            ),
        decreases j,
    {
        assert(cs@.subrange(lo as int, j as int).drop_last() == cs@.subrange(lo as int, j - 1));
        j -= 1;
    }
    j
}

/// The first `c` at or after `lo` and before `hi`, or `hi`.
pub fn find_char(cs: &Vec<char>, lo: usize, hi: usize, c: char) -> (i: usize)
    requires
        lo <= hi <= cs@.len(),
    ensures
        lo <= i <= hi,
        i - lo == first_of(cs@.subrange(lo as int, hi as int), c),
{
    let mut i: usize = lo;
    while i < hi && cs[i] != c
        invariant
            lo <= i <= hi <= cs@.len(),
            i - lo + first_of(cs@.subrange(i as int, hi as int), c) == first_of(
                cs@.subrange(lo as int, hi as int),
                c,
            ),
        decreases hi - i,
    {
        assert(cs@.subrange(i as int, hi as int).skip(1) == cs@.subrange(i + 1, hi as int));
        i += 1;
    }
    i
}

/// The first white space at or after `lo` and before `hi`, or `hi`.
pub fn find_space(cs: &Vec<char>, lo: usize, hi: usize) -> (i: usize)
    requires
        lo <= hi <= cs@.len(),
    ensures
        lo <= i <= hi,
        i - lo == first_space(cs@.subrange(lo as int, hi as int)),
{
    let mut i: usize = lo;
    while i < hi && !char_is_space(cs[i])
        invariant
            lo <= i <= hi <= cs@.len(),
            i - lo + first_space(cs@.subrange(i as int, hi as int)) == first_space(
                cs@.subrange(lo as int, hi as int),
            ),
        decreases hi - i,
    {
        assert(cs@.subrange(i as int, hi as int).skip(1) == cs@.subrange(i + 1, hi as int));
        i += 1;
    }
    i
}

/// A text without the white space at either end.
pub fn trim<'a>(s: &'a str) -> (t: &'a str)
    ensures
        t@ == trimmed(s@),
{
    let cs = chars_of(s);
    let lo = skip_space(&cs, 0, cs.len());
    let hi = skip_space_back(&cs, lo, cs.len());
    proof {
        assert(cs@.subrange(0, cs@.len() as int) == s@);
    }
    s.substring_char(lo, hi)
}

/// Does `pat` stand in `s` at place `at`?
fn stands_at(s: &Vec<char>, pat: &Vec<char>, at: usize) -> (b: bool)
    requires
        at + pat.len() <= s.len(),
    ensures
        b == occurs_at(s@, pat@, at as int),
{
    let mut i: usize = 0;
    while i < pat.len()
        invariant
            at + pat.len() <= s.len(),
            i <= pat@.len(),
            forall|k: int| 0 <= k < i ==> s@[at + k] == #[trigger] pat@[k],
        decreases pat@.len() - i,
    {
        if s[at + i] != pat[i] {
            assert(s@.subrange(at as int, at + pat@.len())[i as int] != pat@[i as int]);
            return false;
        }
        i += 1;
    }
    assert(s@.subrange(at as int, at + pat@.len()) =~= pat@);
    true
}

/// Does `pat` open `s`?
pub fn starts_with(s: &str, pat: &str) -> (b: bool)
    ensures
        b == opens(s@, pat@),
{
    let cs = chars_of(s);
    let ps = chars_of(pat);
    if cs.len() < ps.len() {
        return false;
    }
    assert(cs@.subrange(0, ps@.len() as int) == cs@.take(ps@.len() as int));
    stands_at(&cs, &ps, 0)
}

/// Are two texts the same?
pub fn same(s: &str, t: &str) -> (b: bool)
    ensures
        b == (s@ == t@),
{
    let cs = chars_of(s);
    let ts = chars_of(t);
    if cs.len() != ts.len() {
        return false;
    }
    assert(cs@.subrange(0, ts@.len() as int) =~= cs@);
    stands_at(&cs, &ts, 0)
}

/// Does `pat` occur in `s`?
pub fn contains(s: &str, pat: &str) -> (b: bool)
    ensures
        b == occurs(s@, pat@),
{
    let cs = chars_of(s);
    let ps = chars_of(pat);
    if cs.len() < ps.len() {
        return false;
    }
    let last: usize = cs.len() - ps.len();
    let mut i: usize = 0;
    loop
        invariant
            cs@ == s@,
            ps@ == pat@,
            last == cs@.len() - ps@.len(),
            i <= last,
            forall|k: int| 0 <= k < i ==> !occurs_at(s@, pat@, k),
        decreases last - i,
    {
        if stands_at(&cs, &ps, i) {
            return true;
        }
        if i == last {
            return false;
        }
        i += 1;
    }
}

/// The code of `c`, with `A` to `Z` taken to `a` to `z`.
fn lower(c: char) -> (n: u32)
    ensures
        n == lower_code(c),
{
    let n: u32 = c as u32;
    if 0x41 <= n && n <= 0x5A {
        n + 32
    } else {
        n
    }
}

/// What follows `prefix` at the start of `s`, ASCII case ignored; nothing where `s` does not
/// open with it.
pub fn strip_prefix_ci<'a>(s: &'a str, prefix: &str) -> (rest: Option<&'a str>)
    ensures
        rest is Some == opens_ci(s@, prefix@),
        rest is Some ==> rest->0@ == s@.skip(prefix@.len() as int),
{
    let cs = chars_of(s);
    let ps = chars_of(prefix);
    if cs.len() < ps.len() {
        return None;
    }
    let mut i: usize = 0;
    while i < ps.len()
        invariant
            cs@ == s@,
            ps@ == prefix@,
            i <= ps@.len() <= cs@.len(),
            forall|k: int| #![trigger s@[k]] 0 <= k < i ==> lower_code(s@[k]) == lower_code(prefix@[k]),
        decreases ps@.len() - i,
    {
        if lower(cs[i]) != lower(ps[i]) {
            assert(lower_code(s@[i as int]) != lower_code(prefix@[i as int]));
            return None;
        }
        i += 1;
    }
    Some(s.substring_char(ps.len(), cs.len()))
}

/// Is every character of the text white space?
pub open spec fn all_space(s: Seq<char>) -> bool {
    forall|i: int| 0 <= i < s.len() ==> is_space(#[trigger] s[i])
}

/// Is no character of the text white space?
pub open spec fn no_space(s: Seq<char>) -> bool {
    forall|i: int| 0 <= i < s.len() ==> !is_space(#[trigger] s[i])
}

/// White space is the space, the line ends, the tabs and their like, and nothing that is written.
pub proof fn spaces_are_not_written(c: char)
    ensures
        is_space(' ') && is_space('\n') && is_space('\r') && is_space('\t'),
        is_space('\u{0b}') && is_space('\u{0c}') && is_space('\u{85}') && is_space('\u{a0}'),
        is_space('\u{1680}') && is_space('\u{2000}') && is_space('\u{200a}') && is_space(
            '\u{2028}',
        ),
        is_space('\u{2029}') && is_space('\u{202f}') && is_space('\u{205f}') && is_space(
            '\u{3000}',
        ),
        '!' <= c <= '~' ==> !is_space(c),
{
}

/// Trimming takes white space from both ends, all of it and nothing else.
pub proof fn trimming_takes_all_outer_space(a: Seq<char>, s: Seq<char>, b: Seq<char>)
    requires
        all_space(a),
        all_space(b),
        s.len() > 0 ==> !is_space(s[0]) && !is_space(s.last()),
    ensures
        trimmed(a + s + b) == s,
{
    let tail = s + b;
    assert(a + s + b =~= a + tail);
    if s.len() > 0 {
        assert(tail[0] == s[0]);
        lemma_trim_front(a, tail);
        lemma_trim_back(s, b);
    } else {
        assert(tail =~= b);
        assert forall|i: int| 0 <= i < (a + b).len() implies is_space(#[trigger] (a + b)[i]) by {
            if i < a.len() {
                assert((a + b)[i] == a[i]);
            } else {
                assert((a + b)[i] == b[i - a.len()]);
            }
        }
        lemma_trim_front(a + b, Seq::empty());
        assert(a + b + Seq::<char>::empty() =~= a + b);
        assert(s =~= Seq::empty());
    }
}

proof fn lemma_trim_front(a: Seq<char>, s: Seq<char>)
    requires
        all_space(a),
        s.len() > 0 ==> !is_space(s[0]),
    ensures
        trim_start(a + s) == s,
    decreases a.len(),
{
    if a.len() == 0 {
        assert(a + s =~= s);
    } else {
        let rest = a.skip(1);
        assert((a + s)[0] == a[0]);
        assert((a + s).skip(1) =~= rest + s);
        assert forall|i: int| 0 <= i < rest.len() implies is_space(#[trigger] rest[i]) by {
            assert(rest[i] == a[i + 1]);
        }
        lemma_trim_front(rest, s);
    }
}

proof fn lemma_trim_back(s: Seq<char>, b: Seq<char>)
    requires
        all_space(b),
        s.len() > 0 ==> !is_space(s.last()),
    ensures
        trim_end(s + b) == s,
    decreases b.len(),
{
    if b.len() == 0 {
        assert(s + b =~= s);
    } else {
        let rest = b.drop_last();
        assert((s + b).last() == b[b.len() - 1]);
        assert((s + b).drop_last() =~= s + rest);
        assert forall|i: int| 0 <= i < rest.len() implies is_space(#[trigger] rest[i]) by {
            assert(rest[i] == b[i]);
        }
        lemma_trim_back(s, rest);
    }
}

/// Some words with a gap before each of them and one at the end.
pub open spec fn spaced(ws: Seq<Seq<char>>, gaps: Seq<Seq<char>>) -> Seq<char>
    decreases ws.len(),
{
    if ws.len() == 0 {
        gaps[0]
    } else {
        gaps[0] + (ws[0] + spaced(ws.skip(1), gaps.skip(1)))
    }
}

/// Are these gaps that part words: nothing but white space, and some of it between any two words?
pub open spec fn parts_words(gaps: Seq<Seq<char>>, n: nat) -> bool {
    &&& gaps.len() == n + 1
    &&& forall|i: int| 0 <= i <= n ==> all_space(#[trigger] gaps[i])
    &&& forall|i: int| 0 < i < n ==> (#[trigger] gaps[i]).len() > 0
}

proof fn lemma_first_gap(w: Seq<char>, rest: Seq<char>)
    requires
        no_space(w),
        rest.len() == 0 || is_space(rest[0]),
    ensures
        first_space(w + rest) == w.len(),
    decreases w.len(),
{
    if w.len() == 0 {
        assert(w + rest =~= rest);
    } else {
        let v = w.skip(1);
        assert((w + rest)[0] == w[0]);
        assert((w + rest).skip(1) =~= v + rest);
        assert forall|i: int| 0 <= i < v.len() implies !is_space(#[trigger] v[i]) by {
            assert(v[i] == w[i + 1]);
        }
        lemma_first_gap(v, rest);
    }
}

/// Any white space parts words, of whatever kind and however much: words that are written down
/// with it between them are found again, each whole, in their order, and none besides.
pub proof fn any_space_parts_words(ws: Seq<Seq<char>>, gaps: Seq<Seq<char>>)
    requires
        parts_words(gaps, ws.len()),
        forall|i: int| 0 <= i < ws.len() ==> (#[trigger] ws[i]).len() > 0 && no_space(ws[i]),
    ensures
        words(spaced(ws, gaps)) == ws,
    decreases ws.len(),
{
    let text = spaced(ws, gaps);
    assert(all_space(gaps[0]));
    if ws.len() == 0 {
        lemma_trim_front(gaps[0], Seq::empty());
        assert(gaps[0] + Seq::<char>::empty() =~= gaps[0]);
        assert(words(text) =~= ws);
    } else {
        let w = ws[0];
        let others = ws.skip(1);
        let more = gaps.skip(1);
        let rest = spaced(others, more);
        assert forall|i: int| 0 <= i < others.len() implies (#[trigger] others[i]).len() > 0
            && no_space(others[i]) by {
            assert(others[i] == ws[i + 1]);
        }
        assert forall|i: int| 0 <= i <= others.len() implies all_space(#[trigger] more[i]) by {
            assert(more[i] == gaps[i + 1]);
        }
        assert forall|i: int| 0 < i < others.len() implies (#[trigger] more[i]).len() > 0 by {
            assert(more[i] == gaps[i + 1]);
        }
        any_space_parts_words(others, more);
        assert(rest.len() == 0 || is_space(rest[0])) by {
            assert(more[0] == gaps[1]);
            assert(all_space(gaps[1]));
            if others.len() > 0 {
                assert(gaps[1].len() > 0);
                assert(rest[0] == gaps[1][0]);
            } else if rest.len() > 0 {
                assert(rest[0] == gaps[1][0]);
            }
        }
        let t = w + rest;
        assert(!is_space(w[0]));
        assert(t[0] == w[0]);
        lemma_trim_front(gaps[0], t);
        lemma_first_gap(w, rest);
        assert(t.take(w.len() as int) =~= w);
        assert(t.skip(w.len() as int) =~= rest);
        assert(words(text) =~= seq![w] + others);
        assert(ws =~= seq![w] + others);
    }
}

/// No word holds white space, and none is empty.
pub proof fn words_hold_no_space(s: Seq<char>, k: int)
    requires
        0 <= k < words(s).len(),
    ensures
        words(s)[k].len() > 0,
        no_space(words(s)[k]),
    decreases s.len(),
{
    let a = trim_start(s);
    let n = first_space(a) as int;
    lemma_trim_start(s);
    lemma_first_space(a);
    lemma_before_space(a);
    if k > 0 {
        words_hold_no_space(a.skip(n), k - 1);
    }
}

proof fn lemma_before_space(s: Seq<char>)
    ensures
        first_space(s) <= s.len(),
        no_space(s.take(first_space(s) as int)),
    decreases s.len(),
{
    lemma_first_space(s);
    if s.len() > 0 && !is_space(s[0]) {
        lemma_before_space(s.skip(1));
        let w = s.take(first_space(s) as int);
        let v = s.skip(1).take(first_space(s.skip(1)) as int);
        assert forall|i: int| 0 <= i < w.len() implies !is_space(#[trigger] w[i]) by {
            if i > 0 {
                assert(w[i] == v[i - 1]);
            }
        }
    }
}

/// Some pieces with the character `c` between any two.
pub open spec fn joined_by(pieces: Seq<Seq<char>>, c: char) -> Seq<char>
    decreases pieces.len(),
{
    if pieces.len() == 0 {
        Seq::empty()
    } else if pieces.len() == 1 {
        pieces[0]
    } else {
        pieces[0] + (seq![c] + joined_by(pieces.skip(1), c))
    }
}

proof fn lemma_first_joint(w: Seq<char>, rest: Seq<char>, c: char)
    requires
        forall|i: int| 0 <= i < w.len() ==> #[trigger] w[i] != c,
        rest.len() == 0 || rest[0] == c,
    ensures
        first_of(w + rest, c) == w.len(),
    decreases w.len(),
{
    if w.len() == 0 {
        assert(w + rest =~= rest);
    } else {
        assert((w + rest)[0] == w[0]);
        assert((w + rest).skip(1) =~= w.skip(1) + rest);
        lemma_first_joint(w.skip(1), rest, c);
    }
}

/// Splitting undoes joining: pieces without the character, joined by it, are found again, the
/// empty ones too.
pub proof fn splitting_undoes_joining(pieces: Seq<Seq<char>>, c: char)
    requires
        pieces.len() > 0,
        forall|k: int, i: int|
            0 <= k < pieces.len() && 0 <= i < pieces[k].len() ==> #[trigger] pieces[k][i] != c,
    ensures
        split_on(joined_by(pieces, c), c) == pieces,
    decreases pieces.len(),
{
    let p = pieces[0];
    let text = joined_by(pieces, c);
    assert forall|i: int| 0 <= i < p.len() implies #[trigger] p[i] != c by {
        assert(pieces[0][i] != c);
    }
    if pieces.len() == 1 {
        lemma_first_joint(p, Seq::empty(), c);
        assert(p + Seq::<char>::empty() =~= p);
        assert(split_on(text, c) =~= pieces);
    } else {
        let others = pieces.skip(1);
        let tail = joined_by(others, c);
        assert forall|k: int, i: int| 0 <= k < others.len() && 0 <= i < others[k].len() implies
            #[trigger] others[k][i] != c by {
            assert(others[k] == pieces[k + 1]);
            assert(pieces[k + 1][i] != c);
        }
        splitting_undoes_joining(others, c);
        lemma_first_joint(p, seq![c] + tail, c);
        assert(text.take(p.len() as int) =~= p);
        assert(text.skip(p.len() as int + 1) =~= tail);
        assert(split_on(text, c) =~= seq![p] + others);
        assert(pieces =~= seq![p] + others);
    }
}

/// Case is ignored for the letters of English and for nothing else.
pub proof fn only_case_is_ignored(c: char, e: char)
    ensures
        lower_code(c) == lower_code(e) <==> c == e || ('A' <= c <= 'Z' && e as u32 == c as u32 + 32)
            || ('A' <= e <= 'Z' && c as u32 == e as u32 + 32),
{
}

proof fn lemma_all_from_front(s: Seq<char>)
    ensures
        trim_start(s).len() == 0 <==> all_space(s),
    decreases s.len(),
{
    if s.len() > 0 && is_space(s[0]) {
        let rest = s.skip(1);
        lemma_all_from_front(rest);
        if all_space(rest) {
            assert forall|i: int| 0 <= i < s.len() implies is_space(#[trigger] s[i]) by {
                if i > 0 {
                    assert(rest[i - 1] == s[i]);
                }
            }
        } else {
            let i = choose|i: int| 0 <= i < rest.len() && !is_space(#[trigger] rest[i]);
            assert(!is_space(s[i + 1]));
        }
    }
}

proof fn lemma_all_from_back(s: Seq<char>)
    ensures
        trim_end(s).len() == 0 <==> all_space(s),
    decreases s.len(),
{
    if s.len() > 0 && is_space(s.last()) {
        let rest = s.drop_last();
        lemma_all_from_back(rest);
        if all_space(rest) {
            assert forall|i: int| 0 <= i < s.len() implies is_space(#[trigger] s[i]) by {
                if i < rest.len() {
                    assert(rest[i] == s[i]);
                }
            }
        } else {
            let i = choose|i: int| 0 <= i < rest.len() && !is_space(#[trigger] rest[i]);
            assert(!is_space(s[i]));
        }
    } else if s.len() > 0 {
        assert(!is_space(s[s.len() - 1]));
    }
}

/// Trimming leaves nothing exactly where there is nothing but white space.
pub proof fn only_blank_text_is_trimmed_away(s: Seq<char>)
    ensures
        trimmed(s).len() == 0 <==> all_space(s),
{
    lemma_all_from_front(s);
    lemma_trim_start(s);
    lemma_all_from_back(trim_start(s));
}

/// One text is found in another exactly where that is made of something, the one, and something.
pub proof fn found_text_has_a_before_and_an_after(s: &str, pat: &str, b: bool)
    requires
        call_ensures(contains, (s, pat), b),
    ensures
        b <==> exists|front: Seq<char>, back: Seq<char>| s@ == #[trigger] (front + pat@ + back),
{
    if b {
        let i = choose|i: int| occurs_at(s@, pat@, i);
        let n = pat@.len() as int;
        assert(s@ =~= s@.take(i) + s@.subrange(i, i + n) + s@.skip(i + n));
        assert(s@ == s@.take(i) + pat@ + s@.skip(i + n));
    }
    if exists|front: Seq<char>, back: Seq<char>| s@ == #[trigger] (front + pat@ + back) {
        let (front, back) = choose|front: Seq<char>, back: Seq<char>|
            s@ == #[trigger] (front + pat@ + back);
        let i = front.len() as int;
        assert(s@.subrange(i, i + pat@.len()) =~= pat@);
        assert(occurs_at(s@, pat@, i));
    }
}

/// One text opens another exactly where that is the one and something.
pub proof fn opening_text_stands_in_front(s: &str, pat: &str, b: bool)
    requires
        call_ensures(starts_with, (s, pat), b),
    ensures
        b <==> exists|back: Seq<char>| s@ == #[trigger] (pat@ + back),
{
    let n = pat@.len() as int;
    if b {
        assert(s@ =~= s@.take(n) + s@.skip(n));
        assert(s@ == pat@ + s@.skip(n));
    }
    if exists|back: Seq<char>| s@ == #[trigger] (pat@ + back) {
        let back = choose|back: Seq<char>| s@ == #[trigger] (pat@ + back);
        assert(s@.take(n) =~= pat@);
    }
}

/// Are two letters the same but for case?
pub open spec fn same_letter(a: char, b: char) -> bool {
    ||| a == b
    ||| 'A' <= a <= 'Z' && b as u32 == a as u32 + 32
    ||| 'A' <= b <= 'Z' && a as u32 == b as u32 + 32
}

/// A prefix is taken off in whatever case it stands, and all of the rest is left as it is; where
/// any of its letters is another, there is nothing to take off.
pub proof fn prefix_is_taken_off_in_any_case(s: &str, prefix: &str, rest: Option<&str>)
    requires
        call_ensures(strip_prefix_ci, (s, prefix), rest),
    ensures
        rest is Some <==> s@.len() >= prefix@.len() && forall|i: int|
            0 <= i < prefix@.len() ==> same_letter(#[trigger] s@[i], prefix@[i]),
        rest matches Some(r) ==> s@ == s@.take(prefix@.len() as int) + r@,
{
    assert forall|i: int|
        #![trigger s@[i]]
        0 <= i < prefix@.len() implies (lower_code(s@[i]) == lower_code(prefix@[i])
        <==> same_letter(s@[i], prefix@[i])) by {
        only_case_is_ignored(s@[i], prefix@[i]);
    }
    if let Some(r) = rest {
        assert(s@ =~= s@.take(prefix@.len() as int) + r@);
    }
}

/// What trimming leaves of a text is what stands between its outer white space.
pub proof fn trimmed_text_stands_between_spaces(
    s: &str,
    t: &str,
    a: Seq<char>,
    inner: Seq<char>,
    b: Seq<char>,
)
    requires
        call_ensures(trim, (s,), t),
        s@ == a + inner + b,
        all_space(a),
        all_space(b),
        inner.len() > 0 ==> !is_space(inner[0]) && !is_space(inner.last()),
    ensures
        t@ == inner,
{
    trimming_takes_all_outer_space(a, inner, b);
}

/// White space is these characters and no others.
pub proof fn white_space_is_listed(c: char, b: bool)
    requires
        call_ensures(char_is_space, (c,), b),
    ensures
        b <==> seq![
            '\t', '\n', '\u{0b}', '\u{0c}', '\r', ' ', '\u{85}', '\u{a0}', '\u{1680}',
            '\u{2000}', '\u{2001}', '\u{2002}', '\u{2003}', '\u{2004}', '\u{2005}', '\u{2006}',
            '\u{2007}', '\u{2008}', '\u{2009}', '\u{200a}', '\u{2028}', '\u{2029}', '\u{202f}',
            '\u{205f}', '\u{3000}',
        ].contains(c),
{
    let list = seq![
        '\t', '\n', '\u{0b}', '\u{0c}', '\r', ' ', '\u{85}', '\u{a0}', '\u{1680}',
        '\u{2000}', '\u{2001}', '\u{2002}', '\u{2003}', '\u{2004}', '\u{2005}', '\u{2006}',
        '\u{2007}', '\u{2008}', '\u{2009}', '\u{200a}', '\u{2028}', '\u{2029}', '\u{202f}',
        '\u{205f}', '\u{3000}',
    ];
    if b {
        let n = c as u32;
        let i: int = if n <= 0x0D {
            n - 9
        } else if n == 0x20 {
            5
        } else if n == 0x85 {
            6
        } else if n == 0xA0 {
            7
        } else if n == 0x1680 {
            8
        } else if n <= 0x200A {
            n - 0x2000 + 9
        } else if n == 0x2028 {
            20
        } else if n == 0x2029 {
            21
        } else if n == 0x202F {
            22
        } else if n == 0x205F {
            23
        } else {
            24
        };
        assert(list[i] == c);
    }
}

} // verus!
