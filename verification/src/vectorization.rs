//! Vocabulary and vectorization engine: builds a character vocabulary
//! ranked by descending occurrence count over the whole corpus, encodes
//! every text as the bitmap of vocabulary indices of its characters, and
//! derives the ascending collection of symmetric-difference distances
//! between each text and the center.
use std::ops::BitXor;

use vstd::prelude::*;
use vstd::relations::injective_on;
use vstd::set_lib::lemma_map_size;
use vstd::seq_lib::lemma_multiset_commutative;

use crate::occurrences;
use crate::lemma_occurrences_contains;
use crate::lemma_occurrences_le_len;
use crate::lemma_occurrences_push;

verus! {

broadcast use
    vstd::seq_lib::group_to_multiset_ensures,
    vstd::seq_lib::seq_to_set_is_finite,
    vstd::set::group_set_axioms,
    Seq::lemma_to_set_insert_commutes,
    Set::lemma_set_map_insert_commute,
;

/// Relies on roaring::RoaringBitmap; Verus treats the bitmap as an opaque
/// value whose contents are named by `bitmap_set`.
#[verifier::external_type_specification]
#[verifier::external_body]
pub struct ExRoaringBitmap(roaring::RoaringBitmap);

/// The set of values a bitmap holds.
pub uninterp spec fn bitmap_set(rb: roaring::RoaringBitmap) -> Set<u32>;

/// Relies on RoaringBitmap::new: the fresh bitmap holds no value.
#[verifier::external_body]
fn rb_new() -> (r: roaring::RoaringBitmap)
    ensures
        bitmap_set(r) == Set::<u32>::empty(),
{
    roaring::RoaringBitmap::new()
}

/// Relies on RoaringBitmap::insert: afterwards the bitmap holds `x` along
/// with everything it held before.
#[verifier::external_body]
fn rb_insert(rb: &mut roaring::RoaringBitmap, x: u32)
    ensures
        bitmap_set(*final(rb)) == bitmap_set(*old(rb)).insert(x),
{
    rb.insert(x);
}

/// Relies on the BitXor impl for &RoaringBitmap: the result holds the
/// symmetric difference of the two operands' contents.
#[verifier::external_body]
fn rb_xor(a: &roaring::RoaringBitmap, b: &roaring::RoaringBitmap) -> (r: roaring::RoaringBitmap)
    ensures
        bitmap_set(r) == bitmap_set(*a).difference(bitmap_set(*b)).union(
            bitmap_set(*b).difference(bitmap_set(*a)),
        ),
{
    a.bitxor(b)
}

/// Relies on RoaringBitmap::len: the number of values the bitmap holds.
#[verifier::external_body]
fn rb_len(rb: &roaring::RoaringBitmap) -> (r: u64)
    requires
        bitmap_set(*rb).finite(),
    ensures
        r == bitmap_set(*rb).len(),
{
    rb.len()
}

/// One distinct character with its occurrence count.
#[derive(Clone, Copy, Debug, PartialEq, Eq, Structural)]
struct CharCount {
    ch: char,
    count: usize,
}

/// All texts of `l` laid end to end.
pub open spec fn concat_texts(l: Seq<Seq<char>>) -> Seq<char>
    decreases l.len(),
{
    if l.len() == 0 {
        Seq::empty()
    } else {
        concat_texts(l.drop_last()) + l.last()
    }
}

/// Number of distinct characters present in exactly one of the two texts:
/// the symmetric-difference distance.
pub open spec fn sym_diff_count(a: Seq<char>, b: Seq<char>) -> nat {
    a.to_set().difference(b.to_set()).union(b.to_set().difference(a.to_set())).len()
}

/// Vocabulary index of a character: its first position in the ranked
/// vocabulary, or 0 for a character outside it.
pub open spec fn char_index(vocab: Seq<char>, c: char) -> u32 {
    if vocab.contains(c) {
        vocab.index_of(c) as u32
    } else {
        0
    }
}

/// The vocabulary lists exactly the characters of the corpus, once each,
/// ranked by non-increasing occurrence count.
pub open spec fn vocab_ok(vocab: Seq<char>, corpus: Seq<char>) -> bool {
    &&& vocab.no_duplicates()
    &&& forall|c: char| #[trigger] vocab.contains(c) <==> occurrences(corpus, c) > 0
    &&& forall|i: int, j: int|
        #![trigger vocab[i], vocab[j]]
        0 <= i < j < vocab.len() ==> occurrences(corpus, vocab[i]) >= occurrences(
            corpus,
            vocab[j],
        )
}

/// The distance collection: one distance per text, sorted ascending.
pub open spec fn dt_ok(dt: Seq<u64>, texts: Seq<Seq<char>>, center: Seq<char>) -> bool {
    &&& dt.len() == texts.len()
    &&& forall|p: int, q: int| 0 <= p <= q < dt.len() ==> dt[p] <= dt[q]
    &&& dt.to_multiset() == texts.map_values(
        |t: Seq<char>| sym_diff_count(t, center) as u64,
    ).to_multiset()
}

/// Vectorization engine; owns the comparison texts, the center text, the
/// ranked vocabulary and the derived distance collection.
pub struct Vectorization {
    list: Vec<String>,
    centor: String,
    words_vec: Vec<char>,
    pub dt: Vec<u64>,
}

impl Vectorization {
    /// The comparison texts as character sequences.
    pub closed spec fn texts(self) -> Seq<Seq<char>> {
        self.list@.map_values(|s: String| s@)
    }

    /// The center text as a character sequence.
    pub closed spec fn center(self) -> Seq<char> {
        self.centor@
    }

    /// The ranked vocabulary built by the last distance computation.
    pub closed spec fn vocab(self) -> Seq<char> {
        self.words_vec@
    }

    /// The distance collection computed by the last request.
    pub closed spec fn distances(self) -> Seq<u64> {
        self.dt@
    }

    /// All characters of the corpus: every comparison text, then the
    /// center.
    pub open spec fn corpus(self) -> Seq<char> {
        concat_texts(self.texts()) + self.center()
    }

    /// A fresh engine with no texts.
    pub fn new() -> (r: Self)
        ensures
            r.texts().len() == 0,
            r.center().len() == 0,
            r.distances().len() == 0,
            r.vocab().len() == 0,
    {
        Vectorization {
            list: Vec::new(),
            centor: String::new(),
            words_vec: Vec::new(),
            dt: Vec::new(),
        }
    }

    /// Number of characters in the vocabulary built by the last distance
    /// computation.
    pub fn get_word_len(&self) -> (r: usize)
        ensures
            r == self.vocab().len(),
    {
        self.words_vec.len()
    }

    /// Appends one comparison text.
    pub fn add(&mut self, s: String)
        ensures
            final(self).texts() == old(self).texts().push(s@),
            final(self).center() == old(self).center(),
            final(self).distances() == old(self).distances(),
            final(self).vocab() == old(self).vocab(),
    {
        self.list.push(s);
        proof {
            assert(final(self).texts() =~= old(self).texts().push(s@));
        }
    }

    /// Replaces the comparison texts.
    pub fn list(&mut self, list: Vec<String>)
        ensures
            final(self).texts() == list@.map_values(|s: String| s@),
            final(self).center() == old(self).center(),
            final(self).distances() == old(self).distances(),
            final(self).vocab() == old(self).vocab(),
    {
        self.list = list;
    }

    /// Replaces the center text.
    pub fn centor(&mut self, s: String)
        ensures
            final(self).center() == s@,
            final(self).texts() == old(self).texts(),
            final(self).distances() == old(self).distances(),
            final(self).vocab() == old(self).vocab(),
    {
        self.centor = s;
    }
}


/// Occurrence counts add up over concatenation.
proof fn lemma_occ_concat(a: Seq<char>, b: Seq<char>, c: char)
    ensures
        occurrences(a + b, c) == occurrences(a, c) + occurrences(b, c),
    decreases b.len(),
{
    if b.len() == 0 {
        assert(a + b =~= a);
    } else {
        lemma_occ_concat(a, b.drop_last(), c);
        assert((a + b).drop_last() =~= a + b.drop_last());
        assert((a + b).last() == b.last());
    }
}

/// A single text contributes no more occurrences than the concatenation
/// of all texts.
proof fn lemma_occ_text_le(l: Seq<Seq<char>>, t: int, c: char)
    requires
        0 <= t < l.len(),
    ensures
        occurrences(concat_texts(l), c) >= occurrences(l[t], c),
    decreases l.len(),
{
    lemma_occ_concat(concat_texts(l.drop_last()), l.last(), c);
    if t < l.len() - 1 {
        assert(l.drop_last()[t] == l[t]);
        lemma_occ_text_le(l.drop_last(), t, c);
    }
}

/// The concatenation splits at any text boundary.
proof fn lemma_concat_split(l: Seq<Seq<char>>, t: int)
    requires
        0 <= t <= l.len(),
    ensures
        concat_texts(l) == concat_texts(l.subrange(0, t)) + concat_texts(
            l.subrange(t, l.len() as int),
        ),
    decreases l.len(),
{
    if t == l.len() {
        assert(l.subrange(0, t) =~= l);
        assert(l.subrange(t, l.len() as int) =~= Seq::<Seq<char>>::empty());
        assert(concat_texts(l) + concat_texts(Seq::<Seq<char>>::empty()) =~= concat_texts(l));
    } else {
        let dl = l.drop_last();
        lemma_concat_split(dl, t);
        assert(dl.subrange(0, t) =~= l.subrange(0, t));
        let rest = l.subrange(t, l.len() as int);
        assert(rest.drop_last() =~= dl.subrange(t, dl.len() as int));
        assert(rest.last() == l.last());
        assert(concat_texts(l.subrange(0, t)) + (concat_texts(rest.drop_last()) + rest.last())
            =~= (concat_texts(l.subrange(0, t)) + concat_texts(rest.drop_last())) + rest.last());
    }
}

/// While the corpus is scanned text by text, the occurrences seen so far
/// never exceed the occurrences in the whole corpus.
proof fn lemma_occ_processed_le(l: Seq<Seq<char>>, center: Seq<char>, t: int, k: int, c: char)
    requires
        0 <= t < l.len(),
        0 <= k <= l[t].len(),
    ensures
        occurrences(concat_texts(l.subrange(0, t)) + l[t].subrange(0, k), c) <= occurrences(
            concat_texts(l) + center,
            c,
        ),
{
    lemma_concat_split(l, t);
    lemma_occ_concat(concat_texts(l.subrange(0, t)), l[t].subrange(0, k), c);
    assert(l[t] =~= l[t].subrange(0, k) + l[t].subrange(k, l[t].len() as int));
    lemma_occ_concat(l[t].subrange(0, k), l[t].subrange(k, l[t].len() as int), c);
    let rest = l.subrange(t, l.len() as int);
    assert(rest[0] == l[t]);
    lemma_occ_text_le(rest, 0, c);
    lemma_occ_concat(concat_texts(l.subrange(0, t)), concat_texts(rest), c);
    lemma_occ_concat(concat_texts(l), center, c);
}

/// The count table lists each character of the processed prefix exactly
/// once, with its occurrence count.
spec fn counts_ok(counts: Seq<CharCount>, processed: Seq<char>) -> bool {
    &&& forall|i: int, j: int|
        #![trigger counts[i].ch, counts[j].ch]
        0 <= i < j < counts.len() ==> counts[i].ch != counts[j].ch
    &&& forall|i: int| 0 <= i < counts.len() ==> (#[trigger] counts[i].count) == occurrences(
        processed,
        counts[i].ch,
    )
    &&& forall|i: int| 0 <= i < counts.len() ==> occurrences(
        processed,
        (#[trigger] counts[i]).ch,
    ) > 0
    &&& forall|c: char|
        occurrences(processed, c) > 0 ==> exists|i: int|
            0 <= i < counts.len() && (#[trigger] counts[i]).ch == c
}

/// Records one more occurrence of `ch` in the count table.
fn bump(counts: &mut Vec<CharCount>, ch: char, processed: Ghost<Seq<char>>)
    requires
        counts_ok(old(counts)@, processed@),
        occurrences(processed@, ch) < usize::MAX,
    ensures
        counts_ok(final(counts)@, processed@.push(ch)),
{
    proof {
        assert forall|c: char|
            occurrences(processed@.push(ch), c) == occurrences(processed@, c) + if c == ch {
                1nat
            } else {
                0nat
            } by {
            lemma_occurrences_push(processed@, ch, c);
        }
    }
    let mut i: usize = 0;
    while i < counts.len()
        invariant
            0 <= i <= counts@.len(),
            counts@ == old(counts)@,
            counts_ok(counts@, processed@),
            occurrences(processed@, ch) < usize::MAX,
            forall|j: int| 0 <= j < i ==> (#[trigger] counts@[j]).ch != ch,
            forall|c: char|
                occurrences(processed@.push(ch), c) == occurrences(processed@, c) + if c == ch {
                    1nat
                } else {
                    0nat
                },
        decreases counts@.len() - i,
    {
        if counts[i].ch == ch {
            let cc = counts[i];
            counts.set(i, CharCount { ch: cc.ch, count: cc.count + 1 });
            proof {
                assert forall|c: char|
                    occurrences(processed@.push(ch), c) > 0 implies exists|t: int|
                        0 <= t < counts@.len() && (#[trigger] counts@[t]).ch == c by {
                    if c == ch {
                        assert(counts@[i as int].ch == c);
                    } else {
                        let t = choose|t: int|
                            0 <= t < old(counts)@.len() && (#[trigger] old(counts)@[t]).ch == c;
                        assert(counts@[t].ch == c);
                    }
                }
            }
            return ;
        }
        i = i + 1;
    }
    proof {
        if occurrences(processed@, ch) > 0 {
            let t = choose|t: int|
                0 <= t < counts@.len() && (#[trigger] counts@[t]).ch == ch;
            assert(false);
        }
    }
    counts.push(CharCount { ch, count: 1 });
    proof {
        assert forall|c: char|
            occurrences(processed@.push(ch), c) > 0 implies exists|t: int|
                0 <= t < counts@.len() && (#[trigger] counts@[t]).ch == c by {
            if c == ch {
                assert(counts@[counts@.len() - 1].ch == c);
            } else {
                let t = choose|t: int|
                    0 <= t < old(counts)@.len() && (#[trigger] old(counts)@[t]).ch == c;
                assert(counts@[t].ch == c);
            }
        }
    }
}


/// The characters are divided between the ranked table and the remainder:
/// each corpus character sits in exactly one of the two, with its count,
/// and everything ranked outweighs everything still remaining.
spec fn split_ok(ranked: Seq<CharCount>, rem: Seq<CharCount>, corpus: Seq<char>) -> bool {
    &&& forall|i: int, j: int|
        #![trigger ranked[i].ch, ranked[j].ch]
        0 <= i < j < ranked.len() ==> ranked[i].ch != ranked[j].ch
    &&& forall|i: int, j: int|
        #![trigger rem[i].ch, rem[j].ch]
        0 <= i < j < rem.len() ==> rem[i].ch != rem[j].ch
    &&& forall|i: int, j: int|
        #![trigger ranked[i].ch, rem[j].ch]
        0 <= i < ranked.len() && 0 <= j < rem.len() ==> ranked[i].ch != rem[j].ch
    &&& forall|i: int| 0 <= i < ranked.len() ==> (#[trigger] ranked[i].count) == occurrences(
        corpus,
        ranked[i].ch,
    )
    &&& forall|i: int| 0 <= i < rem.len() ==> (#[trigger] rem[i].count) == occurrences(
        corpus,
        rem[i].ch,
    )
    &&& forall|i: int| 0 <= i < ranked.len() ==> occurrences(
        corpus,
        (#[trigger] ranked[i]).ch,
    ) > 0
    &&& forall|i: int| 0 <= i < rem.len() ==> occurrences(corpus, (#[trigger] rem[i]).ch) > 0
    &&& forall|c: char|
        occurrences(corpus, c) > 0 ==> (exists|i: int|
            0 <= i < ranked.len() && (#[trigger] ranked[i]).ch == c) || (exists|i: int|
            0 <= i < rem.len() && (#[trigger] rem[i]).ch == c)
    &&& forall|i: int, j: int|
        #![trigger ranked[i].count, ranked[j].count]
        0 <= i < j < ranked.len() ==> ranked[i].count >= ranked[j].count
    &&& forall|i: int, j: int|
        #![trigger ranked[i].count, rem[j].count]
        0 <= i < ranked.len() && 0 <= j < rem.len() ==> ranked[i].count >= rem[j].count
}

impl Vectorization {
    /// Rebuilds the vocabulary from the current texts: tallies every
    /// character of every comparison text and of the center, then ranks
    /// the distinct characters by non-increasing occurrence count.  The
    /// contract fixes the count order only; among equal counts this
    /// implementation keeps first-seen order, but callers may not rely on
    /// that.
    fn words(&mut self)
        requires
            old(self).corpus().len() < usize::MAX,
        ensures
            final(self).texts() == old(self).texts(),
            final(self).center() == old(self).center(),
            final(self).distances() == old(self).distances(),
            vocab_ok(final(self).vocab(), old(self).corpus()),
    {
        let ghost txts = self.texts();
        let ghost corp = self.corpus();
        let mut counts: Vec<CharCount> = Vec::new();
        let mut t: usize = 0;
        while t < self.list.len()
            invariant
                *self == *old(self),
                txts == self.texts(),
                corp == self.corpus(),
                corp.len() < usize::MAX,
                0 <= t <= self.list@.len(),
                counts_ok(counts@, concat_texts(txts.subrange(0, t as int))),
            decreases self.list@.len() - t,
        {
            let n = self.list[t].as_str().unicode_len();
            proof {
                assert(txts[t as int] == self.list@[t as int]@);
            }
            let mut k: usize = 0;
            while k < n
                invariant
                    *self == *old(self),
                    txts == self.texts(),
                    corp == self.corpus(),
                    corp.len() < usize::MAX,
                    t < self.list@.len(),
                    n == txts[t as int].len(),
                    0 <= k <= n,
                    counts_ok(
                        counts@,
                        concat_texts(txts.subrange(0, t as int)) + txts[t as int].subrange(
                            0,
                            k as int,
                        ),
                    ),
                decreases n - k,
            {
                let ch = self.list[t].as_str().get_char(k);
                let ghost processed = concat_texts(txts.subrange(0, t as int)) + txts[
                    t as int
                ].subrange(0, k as int);
                proof {
                    lemma_occ_processed_le(txts, self.centor@, t as int, k as int, ch);
                    lemma_occurrences_le_len(corp, ch);
                    assert(txts[t as int].subrange(0, k + 1) =~= txts[t as int].subrange(
                        0,
                        k as int,
                    ).push(txts[t as int][k as int]));
                    assert(processed.push(ch) =~= concat_texts(txts.subrange(0, t as int)) + txts[
                        t as int
                    ].subrange(0, k + 1));
                }
                bump(&mut counts, ch, Ghost(processed));
                k = k + 1;
            }
            proof {
                assert(txts[t as int].subrange(0, n as int) =~= txts[t as int]);
                assert(txts.subrange(0, t + 1).drop_last() =~= txts.subrange(0, t as int));
                assert(txts.subrange(0, t + 1).last() == txts[t as int]);
            }
            t = t + 1;
        }
        proof {
            assert(txts.subrange(0, txts.len() as int) =~= txts);
        }
        let n = self.centor.as_str().unicode_len();
        let mut k: usize = 0;
        while k < n
            invariant
                *self == *old(self),
                txts == self.texts(),
                corp == self.corpus(),
                corp.len() < usize::MAX,
                n == self.centor@.len(),
                0 <= k <= n,
                counts_ok(counts@, concat_texts(txts) + self.centor@.subrange(0, k as int)),
            decreases n - k,
        {
            let ch = self.centor.as_str().get_char(k);
            let ghost processed = concat_texts(txts) + self.centor@.subrange(0, k as int);
            proof {
                lemma_occ_concat(concat_texts(txts), self.centor@.subrange(0, k as int), ch);
                assert(self.centor@ =~= self.centor@.subrange(0, k as int)
                    + self.centor@.subrange(k as int, self.centor@.len() as int));
                lemma_occ_concat(
                    self.centor@.subrange(0, k as int),
                    self.centor@.subrange(k as int, self.centor@.len() as int),
                    ch,
                );
                lemma_occ_concat(concat_texts(txts), self.centor@, ch);
                lemma_occurrences_le_len(corp, ch);
                assert(self.centor@.subrange(0, k + 1) =~= self.centor@.subrange(
                    0,
                    k as int,
                ).push(self.centor@[k as int]));
                assert(processed.push(ch) =~= concat_texts(txts) + self.centor@.subrange(
                    0,
                    k + 1,
                ));
            }
            bump(&mut counts, ch, Ghost(processed));
            k = k + 1;
        }
        proof {
            assert(self.centor@.subrange(0, n as int) =~= self.centor@);
            assert(counts_ok(counts@, corp));
        }

        let mut ranked: Vec<CharCount> = Vec::new();
        while counts.len() > 0
            invariant
                split_ok(ranked@, counts@, corp),
            decreases counts@.len(),
        {
            let mut mx: usize = 0;
            let mut q: usize = 1;
            while q < counts.len()
                invariant
                    counts@.len() > 0,
                    0 <= mx < counts@.len(),
                    1 <= q <= counts@.len(),
                    forall|j: int| 0 <= j < q ==> (#[trigger] counts@[j]).count <= counts@[
                        mx as int
                    ].count,
                decreases counts@.len() - q,
            {
                if counts[q].count > counts[mx].count {
                    mx = q;
                }
                q = q + 1;
            }
            let e = counts[mx];
            let ghost pre = counts@;
            let ghost pre_ranked = ranked@;
            counts.remove(mx);
            ranked.push(e);
            proof {
                assert(counts@ == pre.remove(mx as int));
                assert forall|j: int| 0 <= j < counts@.len() implies counts@[j] == (if j
                    < mx as int {
                    pre[j]
                } else {
                    pre[j + 1]
                }) by {}
                assert forall|c: char|
                    occurrences(corp, c) > 0 implies (exists|i: int|
                        0 <= i < ranked@.len() && (#[trigger] ranked@[i]).ch == c) || (exists|
                        i: int,
                    |
                        0 <= i < counts@.len() && (#[trigger] counts@[i]).ch == c) by {
                    if exists|i: int| 0 <= i < pre_ranked.len() && (#[trigger] pre_ranked[i]).ch
                        == c {
                        let i = choose|i: int|
                            0 <= i < pre_ranked.len() && (#[trigger] pre_ranked[i]).ch == c;
                        assert(ranked@[i].ch == c);
                    } else {
                        let i = choose|i: int| 0 <= i < pre.len() && (#[trigger] pre[i]).ch == c;
                        if i == mx as int {
                            assert(ranked@[ranked@.len() - 1].ch == c);
                        } else if i < mx as int {
                            assert(counts@[i].ch == c);
                        } else {
                            assert(counts@[i - 1].ch == c);
                        }
                    }
                }
            }
        }

        let mut wv: Vec<char> = Vec::new();
        let mut i: usize = 0;
        while i < ranked.len()
            invariant
                0 <= i <= ranked@.len(),
                wv@.len() == i,
                forall|j: int| 0 <= j < i ==> (#[trigger] wv@[j]) == ranked@[j].ch,
            decreases ranked@.len() - i,
        {
            wv.push(ranked[i].ch);
            i = i + 1;
        }
        proof {
            assert forall|c: char| #[trigger] wv@.contains(c) implies occurrences(corp, c)
                > 0 by {
                let j = choose|j: int| 0 <= j < wv@.len() && wv@[j] == c;
                assert(ranked@[j].ch == c);
            }
            assert forall|c: char| occurrences(corp, c) > 0 implies wv@.contains(c) by {
                let j = choose|j: int| 0 <= j < ranked@.len() && (#[trigger] ranked@[j]).ch == c;
                assert(wv@[j] == c);
            }
            assert(wv@.no_duplicates()) by {
                assert forall|i: int, j: int|
                    0 <= i < wv@.len() && 0 <= j < wv@.len() && i != j implies wv@[i] != wv@[j]
                    by {
                    assert(wv@[i] == ranked@[i].ch && wv@[j] == ranked@[j].ch);
                }
            }
            assert forall|i: int, j: int|
                #![trigger wv@[i], wv@[j]]
                0 <= i < j < wv@.len() implies occurrences(corp, wv@[i]) >= occurrences(
                corp,
                wv@[j],
            ) by {
                assert(wv@[i] == ranked@[i].ch && wv@[j] == ranked@[j].ch);
                assert(ranked@[i].count >= ranked@[j].count);
            }
        }
        self.words_vec = wv;
    }
}


/// Distance symmetry at the bitmap level: the symmetric difference of two
/// index sets has the same size in either order.
pub proof fn lemma_bitmap_distance_symmetric(a: Set<u32>, b: Set<u32>)
    ensures
        a.difference(b).union(b.difference(a)).len() == b.difference(a).union(
            a.difference(b),
        ).len(),
{
    assert(a.difference(b).union(b.difference(a)) =~= b.difference(a).union(a.difference(b)));
}

/// Distance bounds at the bitmap level: two index sets are at distance
/// zero exactly when they are equal; in particular every set is at
/// distance zero from itself.
pub proof fn lemma_bitmap_distance_zero(a: Set<u32>, b: Set<u32>)
    requires
        a.finite(),
        b.finite(),
    ensures
        a.difference(b).union(b.difference(a)).len() == 0 <==> a == b,
        a.difference(a).union(a.difference(a)).len() == 0,
{
    assert(a.difference(a).union(a.difference(a)) =~= Set::<u32>::empty());
    let d = a.difference(b).union(b.difference(a));
    if a == b {
        assert(d =~= Set::<u32>::empty());
    }
    if d.len() == 0 {
        d.lemma_len0_is_empty();
        assert forall|x: u32| a.contains(x) implies b.contains(x) by {
            if !b.contains(x) {
                assert(d.contains(x));
            }
        }
        assert forall|x: u32| b.contains(x) implies a.contains(x) by {
            if !a.contains(x) {
                assert(d.contains(x));
            }
        }
        assert(a =~= b);
    }
}

/// Distance symmetry: the symmetric-difference distance between two texts
/// does not depend on the order of the pair.
pub proof fn lemma_distance_symmetric(a: Seq<char>, b: Seq<char>)
    ensures
        sym_diff_count(a, b) == sym_diff_count(b, a),
{
    assert(a.to_set().difference(b.to_set()).union(b.to_set().difference(a.to_set()))
        =~= b.to_set().difference(a.to_set()).union(a.to_set().difference(b.to_set())));
}

/// Distance bounds: a text is at distance zero from itself, and no
/// distance exceeds the size of a vocabulary holding every character of
/// both texts.
pub proof fn lemma_distance_bounds(a: Seq<char>, b: Seq<char>, vocab: Seq<char>)
    requires
        forall|c: char| a.contains(c) ==> vocab.contains(c),
        forall|c: char| b.contains(c) ==> vocab.contains(c),
    ensures
        sym_diff_count(a, a) == 0,
        sym_diff_count(a, b) <= vocab.len(),
{
    assert(a.to_set().difference(a.to_set()).union(a.to_set().difference(a.to_set()))
        =~= Set::<char>::empty());
    let d = a.to_set().difference(b.to_set()).union(b.to_set().difference(a.to_set()));
    assert forall|c: char| #[trigger] d.contains(c) implies vocab.to_set().contains(c) by {
        assert(a.contains(c) || b.contains(c));
    }
    vocab.lemma_cardinality_of_set();
    vstd::set_lib::lemma_len_subset(d, vocab.to_set());
}

/// With a duplicate-free vocabulary covering both texts, the symmetric
/// difference of the two index sets is exactly as large as the symmetric
/// difference of the two character sets.
proof fn lemma_index_distance(vocab: Seq<char>, a: Seq<char>, b: Seq<char>)
    requires
        vocab.no_duplicates(),
        vocab.len() <= 0xffffffff,
        forall|c: char| a.contains(c) ==> vocab.contains(c),
        forall|c: char| b.contains(c) ==> vocab.contains(c),
    ensures
        ({
            let f = |c: char| char_index(vocab, c);
            let ia = a.to_set().map(f);
            let ib = b.to_set().map(f);
            ia.difference(ib).union(ib.difference(ia)).len() == sym_diff_count(a, b)
        }),
{
    let f = |c: char| char_index(vocab, c);
    let sa = a.to_set();
    let sb = b.to_set();
    let ia = sa.map(f);
    let ib = sb.map(f);
    let d = sa.difference(sb).union(sb.difference(sa));
    assert forall|c1: char, c2: char|
        vocab.contains(c1) && vocab.contains(c2) && #[trigger] f(c1) == #[trigger] f(c2)
        implies c1 == c2 by {
        let i1 = vocab.index_of(c1);
        let i2 = vocab.index_of(c2);
        assert(0 <= i1 < vocab.len() && vocab[i1] == c1);
        assert(0 <= i2 < vocab.len() && vocab[i2] == c2);
        assert(f(c1) == i1 as u32 && f(c2) == i2 as u32);
        assert(i1 as u32 as int == i1 && i2 as u32 as int == i2);
        assert(i1 == i2);
    }
    assert forall|y: u32| #[trigger] ia.difference(ib).union(ib.difference(ia)).contains(y)
        implies d.map(f).contains(y) by {
        if ia.contains(y) && !ib.contains(y) {
            let c = choose|c: char| sa.contains(c) && f(c) == y;
            assert(!sb.contains(c));
            assert(d.contains(c) && f(c) == y);
        } else {
            let c = choose|c: char| sb.contains(c) && f(c) == y;
            assert(!sa.contains(c));
            assert(d.contains(c) && f(c) == y);
        }
    }
    assert forall|y: u32| #[trigger] d.map(f).contains(y) implies ia.difference(ib).union(
        ib.difference(ia),
    ).contains(y) by {
        let c = choose|c: char| d.contains(c) && f(c) == y;
        if sa.contains(c) && !sb.contains(c) {
            assert(ia.contains(y));
            if ib.contains(y) {
                let c2 = choose|c2: char| sb.contains(c2) && f(c2) == y;
                assert(vocab.contains(c) && vocab.contains(c2));
                assert(c2 == c);
                assert(false);
            }
        } else {
            assert(sb.contains(c) && !sa.contains(c));
            assert(ib.contains(y));
            if ia.contains(y) {
                let c2 = choose|c2: char| sa.contains(c2) && f(c2) == y;
                assert(vocab.contains(c) && vocab.contains(c2));
                assert(c2 == c);
                assert(false);
            }
        }
    }
    assert(ia.difference(ib).union(ib.difference(ia)) =~= d.map(f));
    assert(injective_on(f, d)) by {
        assert forall|x1: char, x2: char|
            d.contains(x1) && d.contains(x2) && #[trigger] f(x1) == #[trigger] f(x2)
            implies x1 == x2 by {
            assert(vocab.contains(x1) && vocab.contains(x2));
        }
    }
    lemma_map_size(d, d.map(f), f);
}

/// Inserting anywhere in a sequence adds exactly that element to its
/// multiset.
proof fn lemma_insert_multiset(s: Seq<u64>, i: int, x: u64)
    requires
        0 <= i <= s.len(),
    ensures
        s.insert(i, x).to_multiset() == s.to_multiset().insert(x),
{
    let a = s.subrange(0, i);
    let b = s.subrange(i, s.len() as int);
    assert(s =~= a + b);
    lemma_multiset_commutative(a.push(x), b);
    lemma_multiset_commutative(a, b);
    assert(a.push(x).to_multiset() == a.to_multiset().insert(x));
    assert(s.insert(i, x).to_multiset() =~= s.to_multiset().insert(x));
}

/// Sorts the collection ascending; the result holds exactly the same
/// values.
fn sort_u64(v: &Vec<u64>) -> (r: Vec<u64>)
    ensures
        r@.len() == v@.len(),
        forall|p: int, q: int| 0 <= p <= q < r@.len() ==> r@[p] <= r@[q],
        r@.to_multiset() == v@.to_multiset(),
{
    let mut out: Vec<u64> = Vec::new();
    let mut i: usize = 0;
    while i < v.len()
        invariant
            0 <= i <= v@.len(),
            out@.len() == i,
            forall|p: int, q: int| 0 <= p <= q < out@.len() ==> out@[p] <= out@[q],
            out@.to_multiset() == v@.subrange(0, i as int).to_multiset(),
        decreases v@.len() - i,
    {
        let x = v[i];
        let mut p: usize = 0;
        while p < out.len() && out[p] <= x
            invariant
                0 <= p <= out@.len(),
                forall|q: int| 0 <= q < p ==> (#[trigger] out@[q]) <= x,
            decreases out@.len() - p,
        {
            p = p + 1;
        }
        let ghost pre = out@;
        out.insert(p, x);
        proof {
            lemma_insert_multiset(pre, p as int, x);
            assert(v@.subrange(0, i + 1) =~= v@.subrange(0, i as int).push(v@[i as int]));
            assert(v@.subrange(0, i as int).push(v@[i as int]).to_multiset() == v@.subrange(
                0,
                i as int,
            ).to_multiset().insert(x));
        }
        i = i + 1;
    }
    proof {
        assert(v@.subrange(0, v@.len() as int) =~= v@);
    }
    out
}

impl Vectorization {
    /// Vocabulary index of a character: the position of its first (and,
    /// after `words`, only) occurrence in the ranked vocabulary, with 0 as
    /// the defensive fallback for a character outside it.
    fn get_word_index(&self, c: char) -> (r: usize)
        ensures
            self.vocab().contains(c) ==> r < self.vocab().len() && self.vocab()[r as int] == c
                && forall|j: int| 0 <= j < r ==> self.vocab()[j] != c,
            !self.vocab().contains(c) ==> r == 0,
    {
        let mut i: usize = 0;
        while i < self.words_vec.len()
            invariant
                0 <= i <= self.words_vec@.len(),
                forall|j: int| 0 <= j < i ==> (#[trigger] self.words_vec@[j]) != c,
            decreases self.words_vec@.len() - i,
        {
            if self.words_vec[i] == c {
                return i;
            }
            i = i + 1;
        }
        proof {
            if self.words_vec@.contains(c) {
                let j = choose|j: int|
                    0 <= j < self.words_vec@.len() && self.words_vec@[j] == c;
                assert(false);
            }
        }
        0
    }

    /// The bitmap of a text: the set of vocabulary indices of its
    /// characters.
    fn get_bitmap(&self, s: &String) -> (rb: roaring::RoaringBitmap)
        requires
            self.vocab().no_duplicates(),
            self.vocab().len() <= 0xffffffff,
            forall|c: char| s@.contains(c) ==> self.vocab().contains(c),
        ensures
            bitmap_set(rb) == s@.to_set().map(|c: char| char_index(self.vocab(), c)),
            bitmap_set(rb).finite(),
    {
        let ghost f = |c: char| char_index(self.vocab(), c);
        let mut rb = rb_new();
        proof {
            assert(s@.subrange(0, 0).to_set() =~= Set::<char>::empty());
            assert(Set::<char>::empty().map(f) =~= Set::<u32>::empty());
        }
        let n = self.char_len(s);
        let mut k: usize = 0;
        while k < n
            invariant
                n == s@.len(),
                0 <= k <= n,
                self.vocab().no_duplicates(),
                self.vocab().len() <= 0xffffffff,
                forall|c: char| s@.contains(c) ==> self.vocab().contains(c),
                f == (|c: char| char_index(self.vocab(), c)),
                bitmap_set(rb) == s@.subrange(0, k as int).to_set().map(f),
                bitmap_set(rb).finite(),
            decreases n - k,
        {
            let ch = s.as_str().get_char(k);
            proof {
                assert(s@.contains(s@[k as int]));
            }
            let idx = self.get_word_index(ch);
            proof {
                let io = self.vocab().index_of(ch);
                assert(0 <= io < self.vocab().len() && self.vocab()[io] == ch);
                assert(idx as int == io);
                assert(f(ch) == idx as u32);
                assert(s@.subrange(0, k + 1) =~= s@.subrange(0, k as int).push(s@[k as int]));
                assert(s@.subrange(0, k as int).push(s@[k as int]) =~= s@.subrange(0, k as int)
                    + seq![s@[k as int]]);
                assert((s@.subrange(0, k as int) + seq![s@[k as int]]).to_set() == s@.subrange(
                    0,
                    k as int,
                ).to_set().insert(ch));
                assert(s@.subrange(0, k as int).to_set().insert(ch).map(f) =~= s@.subrange(
                    0,
                    k as int,
                ).to_set().map(f).insert(f(ch)));
            }
            rb_insert(&mut rb, idx as u32);
            k = k + 1;
        }
        proof {
            assert(s@.subrange(0, s@.len() as int) =~= s@);
        }
        rb
    }

    /// Character length of a text.
    fn char_len(&self, s: &String) -> (n: usize)
        ensures
            n == s@.len(),
    {
        s.as_str().unicode_len()
    }

    /// Symmetric-difference distance between two bitmaps.
    fn distance(&self, rb1: &roaring::RoaringBitmap, rb2: &roaring::RoaringBitmap) -> (d: u64)
        requires
            bitmap_set(*rb1).finite(),
            bitmap_set(*rb2).finite(),
        ensures
            d == bitmap_set(*rb1).difference(bitmap_set(*rb2)).union(
                bitmap_set(*rb2).difference(bitmap_set(*rb1)),
            ).len(),
    {
        let x = rb_xor(rb1, rb2);
        rb_len(&x)
    }
}


/// A duplicate-free vocabulary drawn from the corpus has no more entries
/// than the corpus has characters.
proof fn lemma_vocab_le_corpus(vocab: Seq<char>, corpus: Seq<char>)
    requires
        vocab.no_duplicates(),
        forall|c: char| vocab.contains(c) ==> corpus.contains(c),
    ensures
        vocab.len() <= corpus.len(),
{
    vocab.unique_seq_to_set();
    corpus.lemma_cardinality_of_set();
    assert(vocab.to_set().subset_of(corpus.to_set()));
    vstd::set_lib::lemma_len_subset(vocab.to_set(), corpus.to_set());
}

impl Vectorization {
    /// Rebuilds the vocabulary, encodes the center and every comparison
    /// text as bitmaps of vocabulary indices, and stores the ascending
    /// collection of symmetric-difference distances to the center.  The
    /// corpus bound is a machine limit of the exact statistics downstream.
    fn set_dt(&mut self)
        requires
            old(self).corpus().len() <= 0xffff,
        ensures
            final(self).texts() == old(self).texts(),
            final(self).center() == old(self).center(),
            vocab_ok(final(self).vocab(), old(self).corpus()),
            final(self).vocab().len() <= 0xffff,
            dt_ok(final(self).distances(), old(self).texts(), old(self).center()),
            forall|j: int| 0 <= j < final(self).distances().len()
                ==> (#[trigger] final(self).distances()[j]) <= 0xffff,
    {
        self.words();
        let ghost txts = self.texts();
        let ghost cen = self.centor@;
        let ghost corp = old(self).corpus();
        let ghost vocab = self.vocab();
        let ghost f = |c: char| char_index(vocab, c);
        proof {
            assert forall|c: char| cen.contains(c) implies vocab.contains(c) by {
                lemma_occurrences_contains(cen, c);
                lemma_occ_concat(concat_texts(txts), cen, c);
            }
            assert forall|c: char| #[trigger] vocab.contains(c) implies corp.contains(c) by {
                lemma_occurrences_contains(corp, c);
            }
            lemma_vocab_le_corpus(vocab, corp);
        }
        let centor_bit = self.get_bitmap(&self.centor);
        let ghost snap = *self;
        let mut dts: Vec<u64> = Vec::new();
        let mut i: usize = 0;
        while i < self.list.len()
            invariant
                *self == snap,
                txts == self.texts(),
                cen == self.centor@,
                vocab == self.vocab(),
                f == (|c: char| char_index(vocab, c)),
                vocab_ok(vocab, corp),
                corp == concat_texts(txts) + cen,
                vocab.len() <= corp.len() <= 0xffff,
                forall|c: char| cen.contains(c) ==> vocab.contains(c),
                bitmap_set(centor_bit) == cen.to_set().map(f),
                bitmap_set(centor_bit).finite(),
                0 <= i <= txts.len(),
                txts.len() == self.list@.len(),
                dts@.len() == i,
                forall|j: int| 0 <= j < i ==> (#[trigger] dts@[j]) == sym_diff_count(
                    txts[j],
                    cen,
                ),
                forall|j: int| 0 <= j < i ==> (#[trigger] dts@[j]) <= 0xffff,
            decreases txts.len() - i,
        {
            proof {
                assert(txts[i as int] == self.list@[i as int]@);
                assert forall|c: char| txts[i as int].contains(c) implies vocab.contains(c) by {
                    lemma_occurrences_contains(txts[i as int], c);
                    lemma_occ_text_le(txts, i as int, c);
                    lemma_occ_concat(concat_texts(txts), cen, c);
                    assert(corp == concat_texts(txts) + cen);
                    assert(occurrences(txts[i as int], c) > 0);
                    assert(occurrences(concat_texts(txts), c) >= occurrences(
                        txts[i as int],
                        c,
                    ));
                    assert(occurrences(corp, c) > 0);
                }
            }
            let tb = self.get_bitmap(&self.list[i]);
            let d = self.distance(&centor_bit, &tb);
            proof {
                lemma_index_distance(vocab, cen, txts[i as int]);
                lemma_distance_symmetric(cen, txts[i as int]);
                lemma_distance_bounds(cen, txts[i as int], vocab);
                assert(d == sym_diff_count(txts[i as int], cen));
            }
            dts.push(d);
            i = i + 1;
        }
        let sorted = sort_u64(&dts);
        proof {
            assert(dts@ =~= txts.map_values(|t: Seq<char>| sym_diff_count(t, cen) as u64));
            assert forall|j: int| 0 <= j < sorted@.len() implies (#[trigger] sorted@[j])
                <= 0xffff by {
                let v = sorted@[j];
                assert(sorted@.contains(v));
                assert(dts@.to_multiset().count(v) > 0);
                assert(dts@.contains(v));
                let q = choose|q: int| 0 <= q < dts@.len() && dts@[q] == v;
                assert(dts@[q] <= 0xffff);
            }
        }
        self.dt = sorted;
    }

    /// Recomputes the distance collection from the current texts and
    /// returns a copy of it, sorted ascending.
    pub fn get_dt(&mut self) -> (r: Vec<u64>)
        requires
            old(self).corpus().len() <= 0xffff,
        ensures
            final(self).texts() == old(self).texts(),
            final(self).center() == old(self).center(),
            vocab_ok(final(self).vocab(), old(self).corpus()),
            final(self).vocab().len() <= 0xffff,
            dt_ok(final(self).distances(), old(self).texts(), old(self).center()),
            r@ == final(self).distances(),
            forall|j: int| 0 <= j < r@.len() ==> (#[trigger] r@[j]) <= 0xffff,
    {
        self.set_dt();
        let mut r: Vec<u64> = Vec::new();
        let mut i: usize = 0;
        let ghost snap = *self;
        while i < self.dt.len()
            invariant
                *self == snap,
                0 <= i <= self.dt@.len(),
                r@ == self.dt@.subrange(0, i as int),
            decreases self.dt@.len() - i,
        {
            r.push(self.dt[i]);
            proof {
                assert(self.dt@.subrange(0, i + 1) =~= self.dt@.subrange(0, i as int).push(
                    self.dt@[i as int],
                ));
            }
            i = i + 1;
        }
        proof {
            assert(self.dt@.subrange(0, self.dt@.len() as int) =~= self.dt@);
        }
        r
    }
}

} // verus!
