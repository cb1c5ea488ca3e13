//! The word list: read from text, one word per line, kept sorted and without
//! repeats so that membership is a binary search.

use vstd::prelude::*;

use crate::text::{compare_chars, lemma_lex_irreflexive, lemma_lex_transitive, lex_lt, LexOrder};

verus! {

/// The characters that `char::is_whitespace` accepts (Unicode `White_Space`).
pub open spec fn is_white_space(c: char) -> bool {
    ||| '\u{9}' <= c <= '\u{d}'
    ||| c == ' '
    ||| c == '\u{85}'
    ||| c == '\u{a0}'
    ||| c == '\u{1680}'
    ||| '\u{2000}' <= c <= '\u{200a}'
    ||| c == '\u{2028}'
    ||| c == '\u{2029}'
    ||| c == '\u{202f}'
    ||| c == '\u{205f}'
    ||| c == '\u{3000}'
}

pub fn is_white_space_char(c: char) -> (r: bool)
    ensures
        r == is_white_space(c),
{
    ('\u{9}' <= c && c <= '\u{d}') || c == ' ' || c == '\u{85}' || c == '\u{a0}' || c
        == '\u{1680}' || ('\u{2000}' <= c && c <= '\u{200a}') || c == '\u{2028}' || c
        == '\u{2029}' || c == '\u{202f}' || c == '\u{205f}' || c == '\u{3000}'
}

/// `s` without its leading white space.
pub open spec fn trim_start(s: Seq<char>) -> Seq<char>
    decreases s.len(),
{
    if s.len() > 0 && is_white_space(s[0]) {
        trim_start(s.drop_first())
    } else {
        s
    }
}

/// `s` without its trailing white space.
pub open spec fn trim_end(s: Seq<char>) -> Seq<char>
    decreases s.len(),
{
    if s.len() > 0 && is_white_space(s.last()) {
        trim_end(s.drop_last())
    } else {
        s
    }
}

/// `s` without leading and trailing white space, as `str::trim` gives it.
pub open spec fn trim(s: Seq<char>) -> Seq<char> {
    trim_end(trim_start(s))
}

/// The pieces of `s` between newline characters; there is always one more
/// piece than there are newlines.
pub open spec fn split_lines(s: Seq<char>) -> Seq<Seq<char>>
    decreases s.len(),
{
    if s.len() == 0 {
        seq![Seq::<char>::empty()]
    } else {
        let rest = split_lines(s.drop_last());
        if s.last() == '\n' {
            rest.push(Seq::<char>::empty())
        } else {
            rest.update(rest.len() - 1, rest.last().push(s.last()))
        }
    }
}

/// The trimmed pieces that are not empty, in order.
pub open spec fn nonblank_trimmed(lines: Seq<Seq<char>>) -> Seq<Seq<char>>
    decreases lines.len(),
{
    if lines.len() == 0 {
        Seq::<Seq<char>>::empty()
    } else {
        let rest = nonblank_trimmed(lines.drop_last());
        let t = trim(lines.last());
        if t.len() > 0 {
            rest.push(t)
        } else {
            rest
        }
    }
}

/// The words that a word-list text names: its lines, trimmed, blank ones left out.
pub open spec fn listed_words(text: Seq<char>) -> Seq<Seq<char>> {
    nonblank_trimmed(split_lines(text))
}

/// The character sequences held by a list of character vectors.
pub open spec fn seqs_of(v: Seq<Vec<char>>) -> Seq<Seq<char>> {
    v.map_values(|w: Vec<char>| w@)
}

/// Every element comes strictly before every later one.
pub open spec fn strictly_sorted(s: Seq<Seq<char>>) -> bool {
    forall|i: int, j: int| 0 <= i < j < s.len() ==> lex_lt(#[trigger] s[i], #[trigger] s[j])
}

pub proof fn lemma_sorted_no_duplicates(s: Seq<Seq<char>>)
    requires
        strictly_sorted(s),
    ensures
        s.no_duplicates(),
{
    assert forall|i: int, j: int| 0 <= i < s.len() && 0 <= j < s.len() && i != j implies s[i]
        != s[j] by {
        if i < j {
            lemma_lex_irreflexive(s[i]);
        } else {
            lemma_lex_irreflexive(s[j]);
        }
    }
}

/// A set of words, each a sequence of characters.
pub struct Dictionary {
    words: Vec<Vec<char>>,
}

impl View for Dictionary {
    type V = Seq<Seq<char>>;

    /// The words in increasing lexicographic order.
    closed spec fn view(&self) -> Seq<Seq<char>> {
        seqs_of(self.words@)
    }
}

impl Dictionary {
    /// The words are kept in strictly increasing order.
    #[verifier::type_invariant]
    pub closed spec fn is_sorted(self) -> bool {
        strictly_sorted(seqs_of(self.words@))
    }

    /// What the type invariant says of the view: the words are in strictly
    /// increasing order, so none occurs twice.
    pub proof fn lemma_strictly_sorted(self)
        requires
            self.is_sorted(),
        ensures
            strictly_sorted(self@),
            self@.no_duplicates(),
    {
        lemma_sorted_no_duplicates(self@);
    }

    /// The number of words.
    pub fn len(&self) -> (n: usize)
        ensures
            n == self@.len(),
    {
        self.words.len()
    }

    /// The word at `i` in increasing order.
    pub fn word_at(&self, i: usize) -> (w: &Vec<char>)
        requires
            i < self@.len(),
        ensures
            w@ == self@[i as int],
    {
        &self.words[i]
    }

    /// Whether `word` is one of the words.
    pub fn contains(&self, word: &Vec<char>) -> (r: bool)
        ensures
            r == self@.contains(word@),
    {
        proof {
            use_type_invariant(self);
        }
        let ghost s = self@;
        let mut lo: usize = 0;
        let mut hi: usize = self.words.len();
        while lo < hi
            invariant
                s == self@,
                strictly_sorted(s),
                lo <= hi <= s.len(),
                forall|k: int| 0 <= k < lo ==> lex_lt(#[trigger] s[k], word@),
                forall|k: int| hi <= k < s.len() ==> lex_lt(word@, #[trigger] s[k]),
            decreases hi - lo,
        {
            let mid = lo + (hi - lo) / 2;
            match compare_chars(&self.words[mid], word) {
                LexOrder::Equal => {
                    assert(s[mid as int] == word@);
                    return true;
                },
                LexOrder::Less => {
                    assert forall|k: int| 0 <= k < mid + 1 implies lex_lt(#[trigger] s[k], word@) by {
                        if k < mid {
                            lemma_lex_transitive(s[k], s[mid as int], word@);
                        }
                    }
                    lo = mid + 1;
                },
                LexOrder::Greater => {
                    assert forall|k: int| mid <= k < s.len() implies lex_lt(word@, #[trigger] s[k]) by {
                        if k > mid {
                            lemma_lex_transitive(word@, s[mid as int], s[k]);
                        }
                    }
                    hi = mid;
                },
            }
        }
        assert forall|k: int| 0 <= k < s.len() implies s[k] != word@ by {
            lemma_lex_irreflexive(word@);
        }
        false
    }
}

/// The elements of `v` in the opposite order.
fn reversed(v: Vec<Vec<char>>) -> (r: Vec<Vec<char>>)
    ensures
        seqs_of(r@) == seqs_of(v@).reverse(),
{
    let ghost v0 = seqs_of(v@);
    let mut v = v;
    let mut r: Vec<Vec<char>> = Vec::new();
    while v.len() > 0
        invariant
            seqs_of(v@) == v0.take(v.len() as int),
            v.len() <= v0.len(),
            r.len() + v.len() == v0.len(),
            forall|k: int| 0 <= k < r.len() ==> #[trigger] seqs_of(r@)[k] == v0[v0.len() - 1 - k],
        decreases v.len(),
    {
        let ghost before = seqs_of(v@);
        let ghost r_before = seqs_of(r@);
        let x = v.pop().unwrap();
        proof {
            assert(before[before.len() - 1] == x@);
            assert(seqs_of(v@) =~= before.take(before.len() - 1));
            assert(seqs_of(v@) =~= v0.take(v.len() as int));
        }
        r.push(x);
        proof {
            assert(seqs_of(r@) =~= r_before.push(x@));
            assert(x@ == v0[v0.len() - 1 - (r.len() - 1)]);
        }
    }
    assert(seqs_of(r@) =~= v0.reverse());
    r
}

/// Merges two strictly increasing word lists into one that holds each word of
/// either exactly once.
fn merge_unique(a: Vec<Vec<char>>, b: Vec<Vec<char>>) -> (r: Vec<Vec<char>>)
    requires
        strictly_sorted(seqs_of(a@)),
        strictly_sorted(seqs_of(b@)),
    ensures
        strictly_sorted(seqs_of(r@)),
        forall|w: Seq<char>| #[trigger]
            seqs_of(r@).contains(w) <==> seqs_of(a@).contains(w) || seqs_of(b@).contains(w),
{
    let ghost a0 = seqs_of(a@);
    let ghost b0 = seqs_of(b@);
    let mut a = a;
    let mut b = b;
    let mut desc: Vec<Vec<char>> = Vec::new();
    while a.len() > 0 || b.len() > 0
        invariant
            strictly_sorted(a0),
            strictly_sorted(b0),
            a.len() <= a0.len(),
            b.len() <= b0.len(),
            seqs_of(a@) == a0.take(a.len() as int),
            seqs_of(b@) == b0.take(b.len() as int),
            forall|i: int, j: int|
                0 <= i < j < desc.len() ==> lex_lt(
                    #[trigger] seqs_of(desc@)[j],
                    #[trigger] seqs_of(desc@)[i],
                ),
            forall|i: int, k: int|
                0 <= i < desc.len() && 0 <= k < a.len() ==> lex_lt(
                    #[trigger] a0[k],
                    #[trigger] seqs_of(desc@)[i],
                ),
            forall|i: int, k: int|
                0 <= i < desc.len() && 0 <= k < b.len() ==> lex_lt(
                    #[trigger] b0[k],
                    #[trigger] seqs_of(desc@)[i],
                ),
            forall|w: Seq<char>|
                #![trigger a0.contains(w)]
                #![trigger b0.contains(w)]
                #![trigger seqs_of(desc@).contains(w)]
                seqs_of(desc@).contains(w) || seqs_of(a@).contains(w) || seqs_of(b@).contains(w)
                    <==> a0.contains(w) || b0.contains(w),
        decreases a.len() + b.len(),
    {
        let ghost d = seqs_of(desc@);
        let ghost sa0 = seqs_of(a@);
        let ghost sb0 = seqs_of(b@);
        let ghost la = a.len() as int;
        let ghost lb = b.len() as int;
        let take_a: bool;
        let take_b: bool;
        if a.len() == 0 {
            take_a = false;
            take_b = true;
        } else if b.len() == 0 {
            take_a = true;
            take_b = false;
        } else {
            match compare_chars(&a[a.len() - 1], &b[b.len() - 1]) {
                LexOrder::Less => {
                    take_a = false;
                    take_b = true;
                },
                LexOrder::Equal => {
                    take_a = true;
                    take_b = true;
                },
                LexOrder::Greater => {
                    take_a = true;
                    take_b = false;
                },
            }
        }
        proof {
            if la > 0 {
                assert(seqs_of(a@)[la - 1] == a0[la - 1]);
            }
            if lb > 0 {
                assert(seqs_of(b@)[lb - 1] == b0[lb - 1]);
            }
            assert(take_a ==> la > 0);
            assert(take_b ==> lb > 0);
            assert(take_a && !take_b && lb > 0 ==> lex_lt(b0[lb - 1], a0[la - 1]));
            assert(!take_a ==> la == 0 || lex_lt(a0[la - 1], b0[lb - 1]));
            assert(take_a && take_b ==> a0[la - 1] == b0[lb - 1]);
        }
        let ghost x: Seq<char>;
        if take_a {
            let ghost sa = seqs_of(a@);
            let xa = a.pop().unwrap();
            proof {
                x = xa@;
                assert(sa[la - 1] == x);
                assert(a0[la - 1] == x);
                assert(seqs_of(a@) =~= a0.take(la - 1));
            }
            if take_b {
                let ghost sb = seqs_of(b@);
                let xb = b.pop().unwrap();
                proof {
                    assert(sb[lb - 1] == xb@);
                    assert(b0[lb - 1] == x);
                    assert(seqs_of(b@) =~= b0.take(lb - 1));
                }
            }
            desc.push(xa);
        } else {
            let ghost sb = seqs_of(b@);
            let xb = b.pop().unwrap();
            proof {
                x = xb@;
                assert(sb[lb - 1] == x);
                assert(b0[lb - 1] == x);
                assert(seqs_of(b@) =~= b0.take(lb - 1));
            }
            desc.push(xb);
        }
        proof {
            let nd = seqs_of(desc@);
            assert(nd =~= d.push(x));
            // x is larger than everything still waiting
            assert forall|k: int| 0 <= k < a.len() implies lex_lt(#[trigger] a0[k], x) by {
                if take_a {
                    assert(lex_lt(a0[k], a0[la - 1]));
                } else if k < la - 1 {
                    assert(lex_lt(a0[k], a0[la - 1]));
                    lemma_lex_transitive(a0[k], a0[la - 1], x);
                }
            }
            assert forall|k: int| 0 <= k < b.len() implies lex_lt(#[trigger] b0[k], x) by {
                if take_b {
                    assert(lex_lt(b0[k], b0[lb - 1]));
                } else if k < lb - 1 {
                    assert(lex_lt(b0[k], b0[lb - 1]));
                    lemma_lex_transitive(b0[k], b0[lb - 1], x);
                }
            }
            // x is smaller than everything already placed
            assert forall|i: int| 0 <= i < d.len() implies lex_lt(x, #[trigger] d[i]) by {
                if take_a {
                    assert(lex_lt(a0[la - 1], d[i]));
                } else {
                    assert(lex_lt(b0[lb - 1], d[i]));
                }
            }
            assert forall|i: int, j: int| 0 <= i < j < nd.len() implies lex_lt(
                #[trigger] nd[j],
                #[trigger] nd[i],
            ) by {
                if j == nd.len() - 1 {
                    assert(nd[i] == d[i]);
                } else {
                    assert(nd[i] == d[i] && nd[j] == d[j]);
                }
            }
            assert forall|i: int, k: int| 0 <= i < nd.len() && 0 <= k < a.len() implies lex_lt(
                #[trigger] a0[k],
                #[trigger] nd[i],
            ) by {
                if i < d.len() {
                    assert(nd[i] == d[i]);
                    assert(a0.take(la)[k] == a0[k]);
                }
            }
            assert forall|i: int, k: int| 0 <= i < nd.len() && 0 <= k < b.len() implies lex_lt(
                #[trigger] b0[k],
                #[trigger] nd[i],
            ) by {
                if i < d.len() {
                    assert(nd[i] == d[i]);
                }
            }
            assert forall|w: Seq<char>|
                #![trigger a0.contains(w)]
                #![trigger b0.contains(w)]
                #![trigger nd.contains(w)]
                nd.contains(w) || seqs_of(a@).contains(w) || seqs_of(b@).contains(w) <==> (
                a0.contains(w) || b0.contains(w)) by {
                let pa = sa0;
                let pb = sb0;
                assert(d.contains(w) || pa.contains(w) || pb.contains(w) <==> a0.contains(w)
                    || b0.contains(w));
                if d.contains(w) {
                    let i = choose|i: int| 0 <= i < d.len() && d[i] == w;
                    assert(nd[i] == w);
                }
                if pa.contains(w) {
                    let k = choose|k: int| 0 <= k < la && pa[k] == w;
                    if take_a && k == la - 1 {
                        assert(nd[nd.len() - 1] == w);
                    } else {
                        assert(seqs_of(a@)[k] == w);
                    }
                }
                if pb.contains(w) {
                    let k = choose|k: int| 0 <= k < lb && pb[k] == w;
                    if take_b && k == lb - 1 {
                        assert(nd[nd.len() - 1] == w);
                    } else {
                        assert(seqs_of(b@)[k] == w);
                    }
                }
                if nd.contains(w) {
                    let i = choose|i: int| 0 <= i < nd.len() && nd[i] == w;
                    if i < d.len() {
                        assert(d[i] == w);
                    } else if take_a {
                        assert(pa[la - 1] == w);
                    } else {
                        assert(pb[lb - 1] == w);
                    }
                }
                if seqs_of(a@).contains(w) {
                    let k = choose|k: int| 0 <= k < a.len() && seqs_of(a@)[k] == w;
                    assert(pa[k] == w);
                }
                if seqs_of(b@).contains(w) {
                    let k = choose|k: int| 0 <= k < b.len() && seqs_of(b@)[k] == w;
                    assert(pb[k] == w);
                }
            }
        }
    }
    proof {
        assert(seqs_of(a@) =~= Seq::<Seq<char>>::empty());
        assert(seqs_of(b@) =~= Seq::<Seq<char>>::empty());
    }
    let ghost d = seqs_of(desc@);
    let r = reversed(desc);
    proof {
        let rv = seqs_of(r@);
        assert forall|i: int, j: int| 0 <= i < j < rv.len() implies lex_lt(
            #[trigger] rv[i],
            #[trigger] rv[j],
        ) by {
            assert(rv[i] == d[d.len() - 1 - i]);
            assert(rv[j] == d[d.len() - 1 - j]);
        }
        assert forall|w: Seq<char>| #[trigger] rv.contains(w) <==> d.contains(w) by {
            if rv.contains(w) {
                let i = choose|i: int| 0 <= i < rv.len() && rv[i] == w;
                assert(d[d.len() - 1 - i] == w);
            }
            if d.contains(w) {
                let i = choose|i: int| 0 <= i < d.len() && d[i] == w;
                assert(rv[d.len() - 1 - i] == w);
            }
        }
    }
    r
}

/// The distinct words of `v` in strictly increasing order.
fn sort_unique(v: Vec<Vec<char>>) -> (r: Vec<Vec<char>>)
    ensures
        strictly_sorted(seqs_of(r@)),
        forall|w: Seq<char>| #[trigger] seqs_of(r@).contains(w) <==> seqs_of(v@).contains(w),
    decreases v.len(),
{
    if v.len() <= 1 {
        return v;
    }
    let ghost v0 = seqs_of(v@);
    let mut left = v;
    let mid = left.len() / 2;
    let right = left.split_off(mid);
    proof {
        assert(v0 =~= seqs_of(left@) + seqs_of(right@));
    }
    let a = sort_unique(left);
    let b = sort_unique(right);
    let r = merge_unique(a, b);
    proof {
        assert forall|w: Seq<char>| #[trigger] seqs_of(r@).contains(w) <==> v0.contains(w) by {
            let l = seqs_of(left@);
            let rr = seqs_of(right@);
            if l.contains(w) {
                let i = choose|i: int| 0 <= i < l.len() && l[i] == w;
                assert(v0[i] == w);
            }
            if rr.contains(w) {
                let i = choose|i: int| 0 <= i < rr.len() && rr[i] == w;
                assert(v0[l.len() + i] == w);
            }
            if v0.contains(w) {
                let i = choose|i: int| 0 <= i < v0.len() && v0[i] == w;
                if i < l.len() {
                    assert(l[i] == w);
                } else {
                    assert(rr[i - l.len()] == w);
                }
            }
        }
    }
    r
}

/// `v` without leading and trailing white space.
fn trimmed(v: &Vec<char>) -> (r: Vec<char>)
    ensures
        r@ == trim(v@),
{
    let n = v.len();
    let mut i: usize = 0;
    proof {
        assert(v@.skip(0) =~= v@);
    }
    while i < n && is_white_space_char(v[i])
        invariant
            i <= n == v.len(),
            trim_start(v@) == trim_start(v@.skip(i as int)),
        decreases n - i,
    {
        proof {
            assert(v@.skip(i as int)[0] == v@[i as int]);
            assert(v@.skip(i as int).drop_first() =~= v@.skip(i + 1));
        }
        i += 1;
    }
    proof {
        if i < n {
            assert(v@.skip(i as int)[0] == v@[i as int]);
        }
        assert(trim_start(v@) == v@.skip(i as int));
        assert(v@.skip(i as int) =~= v@.subrange(i as int, n as int));
    }
    let mut j: usize = n;
    while j > i && is_white_space_char(v[j - 1])
        invariant
            i <= j <= n == v.len(),
            trim_end(v@.skip(i as int)) == trim_end(v@.subrange(i as int, j as int)),
        decreases j,
    {
        proof {
            assert(v@.subrange(i as int, j as int).last() == v@[j - 1]);
            assert(v@.subrange(i as int, j as int).drop_last() =~= v@.subrange(i as int, j - 1));
        }
        j -= 1;
    }
    proof {
        if j > i {
            assert(v@.subrange(i as int, j as int).last() == v@[j - 1]);
        }
    }
    let mut r: Vec<char> = Vec::new();
    let mut k: usize = i;
    while k < j
        invariant
            i <= k <= j <= n == v.len(),
            r@ == v@.subrange(i as int, k as int),
        decreases j - k,
    {
        r.push(v[k]);
        proof {
            assert(r@ =~= v@.subrange(i as int, k + 1));
        }
        k += 1;
    }
    r
}

/// Reads a word list: one word per line, each line trimmed, blank lines left
/// out, each word kept once.
pub fn load_dictionary(source: &str) -> (d: Dictionary)
    ensures
        forall|w: Seq<char>| #[trigger] d@.contains(w) <==> listed_words(source@).contains(w),
        strictly_sorted(d@),
        d@.no_duplicates(),
{
    let mut entries: Vec<Vec<char>> = Vec::new();
    let mut current: Vec<char> = Vec::new();
    let ghost mut done: Seq<Seq<char>> = Seq::empty();
    proof {
        assert(source@.take(0) =~= Seq::<char>::empty());
    }
    for c in it: source.chars()
        invariant
            it.seq() == source@,
            0 <= it.index() <= source@.len(),
            split_lines(source@.take(it.index() as int)) == done.push(current@),
            seqs_of(entries@) == nonblank_trimmed(done),
    {
        let ghost p = source@.take(it.index() as int);
        proof {
            assert(source@.take(it.index() + 1) =~= p.push(c));
            assert(p.push(c).drop_last() =~= p);
        }
        if c == '\n' {
            let t = trimmed(&current);
            let ghost before = seqs_of(entries@);
            if t.len() > 0 {
                entries.push(t);
                proof {
                    assert(seqs_of(entries@) =~= before.push(t@));
                }
            }
            proof {
                assert(done.push(current@).drop_last() =~= done);
                done = done.push(current@);
                assert(split_lines(p.push(c)) =~= done.push(Seq::<char>::empty()));
            }
            current = Vec::new();
        } else {
            let ghost cur = current@;
            current.push(c);
            proof {
                let rest = done.push(cur);
                assert(rest.update(rest.len() - 1, rest.last().push(c)) =~= done.push(current@));
            }
        }
    }
    let t = trimmed(&current);
    let ghost before = seqs_of(entries@);
    if t.len() > 0 {
        entries.push(t);
        proof {
            assert(seqs_of(entries@) =~= before.push(t@));
        }
    }
    proof {
        assert(source@.take(source@.len() as int) =~= source@);
        assert(done.push(current@).drop_last() =~= done);
    }
    let words = sort_unique(entries);
    proof {
        lemma_sorted_no_duplicates(seqs_of(words@));
    }
    Dictionary { words }
}

} // verus!
