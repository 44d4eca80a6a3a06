//! Splitting an output into words and counting its distinct words.

use vstd::prelude::*;

verus! {

/// The Unicode `White_Space` property, by code point.
pub open spec fn is_white(c: char) -> bool {
    let v = c as u32;
    ||| 0x9 <= v <= 0xD
    ||| v == 0x20
    ||| v == 0x85
    ||| v == 0xA0
    ||| v == 0x1680
    ||| 0x2000 <= v <= 0x200A
    ||| v == 0x2028
    ||| v == 0x2029
    ||| v == 0x202F
    ||| v == 0x205F
    ||| v == 0x3000
}

/// Whether `c` is a whitespace character (Unicode `White_Space`).
pub fn is_whitespace(c: char) -> (b: bool)
    ensures
        b == is_white(c),
{
    let v = c as u32;
    (0x9 <= v && v <= 0xD) || v == 0x20 || v == 0x85 || v == 0xA0 || v == 0x1680 || (0x2000 <= v
        && v <= 0x200A) || v == 0x2028 || v == 0x2029 || v == 0x202F || v == 0x205F || v == 0x3000
}

} // verus!

verus! {

/// The state of a left-to-right scan of `s`: the words completed so far and
/// the run of non-whitespace characters still open at the end.
pub open spec fn scan(s: Seq<char>) -> (Seq<Seq<char>>, Seq<char>)
    decreases s.len(),
{
    if s.len() == 0 {
        (seq![], seq![])
    } else {
        let prev = scan(s.drop_last());
        let c = s.last();
        if is_white(c) {
            if prev.1.len() > 0 {
                (prev.0.push(prev.1), seq![])
            } else {
                (prev.0, seq![])
            }
        } else {
            (prev.0, prev.1.push(c))
        }
    }
}

/// The words of `s`: its maximal runs of non-whitespace characters, in order.
pub open spec fn words(s: Seq<char>) -> Seq<Seq<char>> {
    let st = scan(s);
    if st.1.len() > 0 {
        st.0.push(st.1)
    } else {
        st.0
    }
}

/// The characters of `text`, in order.
pub fn chars_of(text: &str) -> (cs: Vec<char>)
    ensures
        cs@ == text@,
{
    let mut cs: Vec<char> = Vec::new();
    for c in it: text.chars()
        invariant
            cs@ == it.seq().take(it.index() as int),
    {
        cs.push(c);
    }
    cs
}

} // verus!

verus! {

/// The character sequences held by a list of words.
pub open spec fn views(v: Seq<Vec<char>>) -> Seq<Seq<char>> {
    v.map_values(|w: Vec<char>| w@)
}

/// How many words an output has, and how many of them are distinct.
#[derive(Debug, Clone, Copy, PartialEq, Eq, Structural)]
pub struct WordCounts {
    /// Number of words.
    pub words: usize,
    /// Number of distinct words.
    pub unique: usize,
}

/// Whether two words are equal, character by character.
fn same_word(a: &Vec<char>, b: &Vec<char>) -> (r: bool)
    ensures
        r == (a@ == b@),
{
    if a.len() != b.len() {
        return false;
    }
    let mut i: usize = 0;
    while i < a.len()
        invariant
            a.len() == b.len(),
            i <= a.len(),
            forall|k: int| 0 <= k < i ==> a@[k] == b@[k],
        decreases a.len() - i,
    {
        if a[i] != b[i] {
            return false;
        }
        i = i + 1;
    }
    assert(a@ =~= b@);
    true
}

/// Whether `w` occurs in `list`.
fn contains_word(list: &Vec<Vec<char>>, w: &Vec<char>) -> (r: bool)
    ensures
        r == views(list@).contains(w@),
{
    let mut i: usize = 0;
    while i < list.len()
        invariant
            i <= list.len(),
            forall|k: int| 0 <= k < i ==> list@[k]@ != w@,
        decreases list.len() - i,
    {
        if same_word(&list[i], w) {
            assert(views(list@)[i as int] == w@);
            return true;
        }
        i = i + 1;
    }
    assert forall|k: int| 0 <= k < views(list@).len() implies views(list@)[k] != w@ by {
        assert(views(list@)[k] == list@[k]@);
    }
    false
}

/// Records a completed word: counts it, and keeps it among the distinct
/// words unless an equal word is already there.
fn record_word(
    word: Vec<char>,
    count: &mut usize,
    distinct: &mut Vec<Vec<char>>,
    Ghost(done): Ghost<Seq<Seq<char>>>,
)
    requires
        *old(count) == done.len(),
        done.len() < usize::MAX,
        views(old(distinct)@).no_duplicates(),
        views(old(distinct)@).to_set() == done.to_set(),
        old(distinct)@.len() <= done.len(),
    ensures
        *final(count) == done.len() + 1,
        views(final(distinct)@).no_duplicates(),
        views(final(distinct)@).to_set() == done.push(word@).to_set(),
        final(distinct)@.len() <= done.len() + 1,
        final(distinct)@.len() >= 1,
{
    broadcast use Seq::lemma_push_to_set_commute;

    let ghost before = views(distinct@);
    if !contains_word(distinct, &word) {
        let ghost w = word@;
        distinct.push(word);
        assert(views(distinct@) =~= before.push(w));
        assert forall|i: int, j: int|
            0 <= i < views(distinct@).len() && 0 <= j < views(distinct@).len() && i != j implies
            views(distinct@)[i] != views(distinct@)[j] by {
            if i < before.len() && j < before.len() {
            } else if i == before.len() {
                assert(before.contains(before[j]));
            } else {
                assert(before.contains(before[i]));
            }
        }
    } else {
        let ghost k = choose|k: int| 0 <= k < before.len() && before[k] == word@;
        assert(done.to_set().contains(word@)) by {
            assert(before.to_set().contains(before[k]));
        }
        assert(done.push(word@).to_set() =~= done.to_set());
    }
    *count = *count + 1;
}

/// Counts the words of `text` and its distinct words.
pub fn word_counts(text: &str) -> (r: WordCounts)
    ensures
        r.words == words(text@).len(),
        r.unique == words(text@).to_set().len(),
        r.unique <= r.words,
        r.unique == 0 <==> r.words == 0,
{
    broadcast use Seq::lemma_push_to_set_commute;

    let cs = chars_of(text);
    let mut count: usize = 0;
    let mut distinct: Vec<Vec<char>> = Vec::new();
    let mut cur: Vec<char> = Vec::new();
    let ghost mut done: Seq<Seq<char>> = seq![];
    let mut i: usize = 0;
    assert(views(distinct@) =~= seq![]);
    assert(done.to_set() =~= Set::empty());
    assert(views(distinct@).to_set() =~= Set::empty());
    while i < cs.len()
        invariant
            cs@ == text@,
            i <= cs.len(),
            scan(cs@.take(i as int)) == (done, cur@),
            count == done.len(),
            done.len() + (if cur@.len() > 0 { 1int } else { 0int }) <= i,
            views(distinct@).no_duplicates(),
            views(distinct@).to_set() == done.to_set(),
            distinct@.len() <= done.len(),
        decreases cs.len() - i,
    {
        let c = cs[i];
        assert(cs@.take(i + 1).drop_last() =~= cs@.take(i as int));
        if is_whitespace(c) {
            if cur.len() > 0 {
                let word = cur;
                cur = Vec::new();
                record_word(word, &mut count, &mut distinct, Ghost(done));
                proof {
                    done = done.push(word@);
                }
            }
        } else {
            cur.push(c);
        }
        i = i + 1;
    }
    assert(cs@.take(cs.len() as int) =~= cs@);
    if cur.len() > 0 {
        let ghost w = cur@;
        record_word(cur, &mut count, &mut distinct, Ghost(done));
        proof {
            done = done.push(w);
        }
    }
    assert(done == words(text@));
    proof {
        views(distinct@).unique_seq_to_set();
        done.lemma_cardinality_of_set();
        done.lemma_cardinality_of_empty_set_is_0();
    }
    WordCounts { words: count, unique: distinct.len() }
}

} // verus!

verus! {

proof fn lemma_scan_no_white(s: Seq<char>)
    requires
        forall|i: int| 0 <= i < s.len() ==> !is_white(#[trigger] s[i]),
    ensures
        scan(s) == (Seq::<Seq<char>>::empty(), s),
    decreases s.len(),
{
    if s.len() > 0 {
        let p = s.drop_last();
        assert(forall|i: int| 0 <= i < p.len() ==> #[trigger] p[i] == s[i]);
        lemma_scan_no_white(p);
        assert(!is_white(s[s.len() - 1]));
        assert(p.push(s.last()) =~= s);
    }
}

/// A non-empty text without whitespace is a single word, hyphens, digits and
/// punctuation included.
pub proof fn law_text_without_whitespace_is_one_word(s: Seq<char>)
    requires
        s.len() > 0,
        forall|i: int| 0 <= i < s.len() ==> !is_white(#[trigger] s[i]),
    ensures
        words(s) == seq![s],
{
    lemma_scan_no_white(s);
    assert(Seq::<Seq<char>>::empty().push(s) =~= seq![s]);
}

/// A non-empty text of visible ASCII characters (`!` to `~`) is one word.
pub proof fn law_visible_ascii_is_one_word(s: Seq<char>)
    requires
        s.len() > 0,
        forall|i: int| 0 <= i < s.len() ==> 0x21 <= #[trigger] (s[i] as u32) <= 0x7E,
    ensures
        words(s) == seq![s],
        words(s).len() == 1,
        words(s).to_set().len() == 1,
{
    assert forall|i: int| 0 <= i < s.len() implies !is_white(#[trigger] s[i]) by {
        assert(0x21 <= (s[i] as u32) <= 0x7E);
    }
    law_text_without_whitespace_is_one_word(s);
    assert(seq![s].no_duplicates());
    seq![s].unique_seq_to_set();
}

/// Appending a non-whitespace character to a text that ends inside a word
/// extends that last word: the number of words stays the same.
pub proof fn law_extending_a_word_keeps_the_count(s: Seq<char>, c: char)
    requires
        s.len() > 0,
        !is_white(s.last()),
        !is_white(c),
    ensures
        words(s.push(c)).len() == words(s).len(),
        words(s.push(c)) == words(s).drop_last().push(words(s).last().push(c)),
{
    let t = s.push(c);
    assert(t.drop_last() =~= s);
    assert(t.last() == c);
    let p = s.drop_last();
    assert(scan(s).1 == scan(p).1.push(s.last()));
    assert(scan(s).1.len() > 0);
    assert(words(s).drop_last() =~= scan(s).0);
}

/// Trailing whitespace adds no word.
pub proof fn law_whitespace_ends_words(s: Seq<char>, w: char)
    requires
        is_white(w),
    ensures
        words(s.push(w)) == words(s),
{
    let t = s.push(w);
    assert(t.drop_last() =~= s);
    assert(t.last() == w);
}

} // verus!

verus! {

proof fn lemma_scan_concat(u: Seq<char>, t: Seq<char>)
    requires
        scan(u).1.len() == 0,
    ensures
        scan(u + t) == (scan(u).0 + scan(t).0, scan(t).1),
    decreases t.len(),
{
    if t.len() == 0 {
        assert(u + t =~= u);
        assert(scan(u).0 + seq![] =~= scan(u).0);
    } else {
        let t1 = t.drop_last();
        lemma_scan_concat(u, t1);
        assert((u + t).drop_last() =~= u + t1);
        assert((u + t).last() == t.last());
        let a = scan(u).0;
        let b = scan(t1);
        assert((a + b.0).push(b.1) =~= a + b.0.push(b.1));
    }
}

/// The words of two texts joined by whitespace are the words of the first
/// followed by the words of the second.
pub proof fn law_words_of_joined_texts(s: Seq<char>, w: char, t: Seq<char>)
    requires
        is_white(w),
    ensures
        words(s.push(w) + t) == words(s) + words(t),
{
    let u = s.push(w);
    assert(u.drop_last() =~= s);
    assert(u.last() == w);
    assert(scan(u).1.len() == 0);
    assert(scan(u).0 == words(s));
    lemma_scan_concat(u, t);
    let st = scan(t);
    if st.1.len() > 0 {
        assert((words(s) + st.0).push(st.1) =~= words(s) + st.0.push(st.1));
    }
}

/// Repeating a text after a whitespace doubles its words and adds no distinct
/// word.
pub proof fn law_repeated_text_adds_no_distinct_word(s: Seq<char>, w: char)
    requires
        is_white(w),
    ensures
        words(s.push(w) + s).len() == 2 * words(s).len(),
        words(s.push(w) + s).to_set() == words(s).to_set(),
{
    law_words_of_joined_texts(s, w, s);
    let ws = words(s);
    assert forall|x: Seq<char>| (ws + ws).to_set().contains(x) <==> ws.to_set().contains(x) by {
        if (ws + ws).contains(x) {
            let i = choose|i: int| 0 <= i < (ws + ws).len() && (ws + ws)[i] == x;
            if i < ws.len() {
                assert(ws[i] == x);
            } else {
                assert(ws[i - ws.len()] == x);
            }
        }
        if ws.contains(x) {
            let i = choose|i: int| 0 <= i < ws.len() && ws[i] == x;
            assert((ws + ws)[i] == x);
        }
    }
    assert((ws + ws).to_set() =~= ws.to_set());
}

} // verus!
