//! The pair-frequency model: for each word, how often each other word was
//! seen right after it.

use vstd::prelude::*;
use vstd::hash_map::StringHashMap;
use crate::text::{lemma_texts_push, texts};

verus! {

/// How often `b` stands right after `a` in `tokens`.
pub open spec fn pair_count(tokens: Seq<Seq<char>>, a: Seq<char>, b: Seq<char>) -> nat
    decreases tokens.len(),
{
    if tokens.len() < 2 {
        0
    } else {
        pair_count(tokens.drop_last(), a, b) + if tokens[tokens.len() - 2] == a && tokens.last()
            == b {
            1nat
        } else {
            0nat
        }
    }
}

/// The words of `s` without repetition, each where it first stands.
pub open spec fn distinct(s: Seq<Seq<char>>) -> Seq<Seq<char>>
    decreases s.len(),
{
    if s.len() == 0 {
        Seq::empty()
    } else {
        with_word(distinct(s.drop_last()), s.last())
    }
}

/// A list of distinct words once `w` has been seen: `w` joins at the end
/// unless it is listed already.
pub open spec fn with_word(list: Seq<Seq<char>>, w: Seq<char>) -> Seq<Seq<char>> {
    if list.contains(w) {
        list
    } else {
        list.push(w)
    }
}

/// The words that stand right after an `a` in `tokens`, in their order.
pub open spec fn followers(tokens: Seq<Seq<char>>, a: Seq<char>) -> Seq<Seq<char>>
    decreases tokens.len(),
{
    if tokens.len() < 2 {
        Seq::empty()
    } else if tokens[tokens.len() - 2] == a {
        followers(tokens.drop_last(), a).push(tokens.last())
    } else {
        followers(tokens.drop_last(), a)
    }
}

/// The words of `tokens` that have a word after them, in their order.
pub open spec fn predecessors(tokens: Seq<Seq<char>>) -> Seq<Seq<char>> {
    if tokens.len() == 0 {
        tokens
    } else {
        tokens.drop_last()
    }
}

/// The sum of some counts.
pub open spec fn sum(counts: Seq<usize>) -> nat
    decreases counts.len(),
{
    if counts.len() == 0 {
        0
    } else {
        sum(counts.drop_last()) + counts.last() as nat
    }
}

/// The running sum grows by the count at each place.
pub proof fn lemma_sum_take_step(counts: Seq<usize>, i: int)
    requires
        0 <= i < counts.len(),
    ensures
        sum(counts.take(i + 1)) == sum(counts.take(i)) + counts[i],
{
    assert(counts.take(i + 1).drop_last() == counts.take(i));
}

/// The running sum never falls.
pub proof fn lemma_sum_take_monotone(counts: Seq<usize>, i: int, j: int)
    requires
        0 <= i <= j <= counts.len(),
    ensures
        sum(counts.take(i)) <= sum(counts.take(j)),
    decreases j - i,
{
    if i < j {
        lemma_sum_take_step(counts, j - 1);
        lemma_sum_take_monotone(counts, i, j - 1);
    }
}

/// The sum after one count was changed.
pub proof fn lemma_sum_update(counts: Seq<usize>, i: int, c: usize)
    requires
        0 <= i < counts.len(),
    ensures
        sum(counts.update(i, c)) == sum(counts) - counts[i] + c,
    decreases counts.len(),
{
    if i == counts.len() - 1 {
        assert(counts.update(i, c).drop_last() == counts.drop_last());
    } else {
        assert(counts.update(i, c).drop_last() == counts.drop_last().update(i, c));
        lemma_sum_update(counts.drop_last(), i, c);
    }
}

/// The sum after one count was added.
pub proof fn lemma_sum_push(counts: Seq<usize>, c: usize)
    ensures
        sum(counts.push(c)) == sum(counts) + c,
{
    assert(counts.push(c).drop_last() == counts);
}

/// No count is larger than the sum.
pub proof fn lemma_sum_bounds_each(counts: Seq<usize>, i: int)
    requires
        0 <= i < counts.len(),
    ensures
        counts[i] <= sum(counts),
    decreases counts.len(),
{
    if i < counts.len() - 1 {
        lemma_sum_bounds_each(counts.drop_last(), i);
    }
}

/// Where `w` stands in a sequence without duplicates.
pub proof fn lemma_index_of_unique(s: Seq<Seq<char>>, i: int)
    requires
        s.no_duplicates(),
        0 <= i < s.len(),
    ensures
        s.contains(s[i]),
        s.index_of(s[i]) == i,
{
    let j = s.index_of(s[i]);
    assert(0 <= j < s.len() && s[j] == s[i]);
}

/// Distinct words in the order in which they were added, found by their text
/// in constant time.
pub struct WordList {
    slots: StringHashMap<usize>,
    words: Vec<String>,
}

impl View for WordList {
    type V = Seq<Seq<char>>;

    closed spec fn view(&self) -> Seq<Seq<char>> {
        texts(self.words@)
    }
}

impl WordList {
    /// The index agrees with the list: it maps each listed word to its place
    /// and nothing else.
    pub closed spec fn wf(&self) -> bool {
        &&& forall|i: int|
            #![trigger self.words@[i]]
            0 <= i < self.words@.len() ==> self.slots@.contains_key(self.words@[i]@)
                && self.slots@[self.words@[i]@] == i
        &&& forall|w: Seq<char>| #[trigger]
            self.slots@.contains_key(w) ==> self.slots@[w] < self.words@.len()
                && self.words@[self.slots@[w] as int]@ == w
    }

    /// A well-formed list holds no word twice.
    pub proof fn lemma_distinct(&self)
        requires
            self.wf(),
        ensures
            self@.no_duplicates(),
    {
        assert forall|i: int, j: int|
            0 <= i < self@.len() && 0 <= j < self@.len() && i != j implies self@[i] != self@[j] by {
            assert(self.words@[i]@ == self@[i]);
            assert(self.words@[j]@ == self@[j]);
        }
    }

    /// An empty list.
    pub fn new() -> (list: WordList)
        ensures
            list.wf(),
            list@ == Seq::<Seq<char>>::empty(),
    {
        let list = WordList { slots: StringHashMap::new(), words: Vec::new() };
        assert(list@ == Seq::<Seq<char>>::empty());
        list
    }

    /// How many words are listed.
    pub fn len(&self) -> (n: usize)
        ensures
            n == self@.len(),
    {
        self.words.len()
    }

    /// The word at place `i`.
    pub fn word(&self, i: usize) -> (w: &String)
        requires
            i < self@.len(),
        ensures
            w@ == self@[i as int],
    {
        &self.words[i]
    }

    /// The place of `word`, if it is listed.
    pub fn find(&self, word: &str) -> (place: Option<usize>)
        requires
            self.wf(),
        ensures
            match place {
                Some(i) => i < self@.len() && self@[i as int] == word@,
                None => !self@.contains(word@),
            },
    {
        match self.slots.get(word) {
            Some(i) => Some(*i),
            None => {
                assert forall|i: int| 0 <= i < self@.len() implies self@[i] != word@ by {
                    assert(self.slots@.contains_key(self.words@[i]@));
                }
                None
            },
        }
    }

    /// Lists a word that was not listed yet, at the end.
    pub fn add(&mut self, word: &str) -> (place: usize)
        requires
            old(self).wf(),
            !old(self)@.contains(word@),
        ensures
            final(self).wf(),
            final(self)@ == old(self)@.push(word@),
            place == old(self)@.len(),
    {
        let place = self.words.len();
        let key = word.to_owned();
        let kept = word.to_owned();
        proof {
            lemma_texts_push(self.words@, kept);
            assert(!self.slots@.contains_key(word@)) by {
                if self.slots@.contains_key(word@) {
                    let i = self.slots@[word@] as int;
                    assert(self@[i] == word@);
                }
            }
        }
        self.slots.insert(key, place);
        self.words.push(kept);
        proof {
            assert forall|i: int| 0 <= i < self.words@.len() implies self.slots@.contains_key(
                #[trigger] self.words@[i]@,
            ) && self.slots@[self.words@[i]@] == i by {
                if i < place {
                    assert(self.words@[i] == old(self).words@[i]);
                    assert(old(self)@[i] == old(self).words@[i]@);
                }
            }
            assert forall|w: Seq<char>| #[trigger]
                self.slots@.contains_key(w) implies self.slots@[w] < self.words@.len()
                && self.words@[self.slots@[w] as int]@ == w by {
                if w != word@ {
                    assert(old(self).slots@.contains_key(w));
                    assert(self.words@[self.slots@[w] as int] == old(self).words@[old(
                        self,
                    ).slots@[w] as int]);
                }
            }
        }
        place
    }
}

/// The words seen after one word, each with the number of times it was seen.
pub struct Row {
    successors: WordList,
    counts: Vec<usize>,
    total: usize,
}

impl Row {
    /// The successors, in the order in which they are walked when one is drawn.
    pub closed spec fn words(&self) -> Seq<Seq<char>> {
        self.successors@
    }

    /// The count of each successor, in the same order.
    pub closed spec fn counts(&self) -> Seq<usize> {
        self.counts@
    }

    /// The sum of the counts.
    pub closed spec fn total(&self) -> nat {
        self.total as nat
    }

    /// The successors' index agrees with their list.
    pub closed spec fn indexed(&self) -> bool {
        self.successors.wf()
    }

    /// A row holds at least one successor, none twice, each seen at least once.
    pub open spec fn wf(&self) -> bool {
        &&& self.indexed()
        &&& self.words().no_duplicates()
        &&& self.words().len() == self.counts().len()
        &&& self.counts().len() > 0
        &&& forall|i: int| 0 <= i < self.counts().len() ==> #[trigger] self.counts()[i] >= 1
        &&& self.total() == sum(self.counts())
        &&& self.total() <= usize::MAX
    }

    /// How often `b` was seen.
    pub open spec fn count(&self, b: Seq<char>) -> nat {
        if self.words().contains(b) {
            self.counts()[self.words().index_of(b)] as nat
        } else {
            0
        }
    }

    /// As a mapping from successor to count.
    pub open spec fn as_map(&self) -> Map<Seq<char>, nat> {
        Map::new(|b: Seq<char>| self.words().contains(b), |b: Seq<char>| self.count(b))
    }

    /// A row for a word seen once, before `word`.
    pub fn single(word: &str) -> (row: Row)
        ensures
            row.wf(),
            row.words() == seq![word@],
            row.counts() == seq![1usize],
            row.total() == 1,
    {
        let mut successors = WordList::new();
        successors.add(word);
        let mut counts: Vec<usize> = Vec::new();
        counts.push(1);
        let row = Row { successors, counts, total: 1 };
        proof {
            row.successors.lemma_distinct();
            assert(row.words() == seq![word@]);
            assert(row.counts() == seq![1usize]);
            assert(row.counts().drop_last() == Seq::<usize>::empty());
            assert(sum(row.counts()) == 1) by {
                reveal_with_fuel(sum, 2);
            }
        }
        row
    }

    /// How many successors the row holds.
    pub fn len(&self) -> (n: usize)
        requires
            self.wf(),
        ensures
            n == self.words().len(),
            n > 0,
    {
        self.counts.len()
    }

    /// How many sightings the row holds.
    pub fn total_count(&self) -> (n: usize)
        ensures
            n == self.total(),
    {
        self.total
    }

    /// The successor at place `i`.
    pub fn word_at(&self, i: usize) -> (w: &String)
        requires
            self.wf(),
            i < self.words().len(),
        ensures
            w@ == self.words()[i as int],
    {
        self.successors.word(i)
    }

    /// The count of the successor at place `i`.
    pub fn count_at(&self, i: usize) -> (c: usize)
        requires
            self.wf(),
            i < self.counts().len(),
        ensures
            c == self.counts()[i as int],
            c >= 1,
    {
        self.counts[i]
    }

    /// How often `word` was seen.
    pub fn count_of(&self, word: &str) -> (c: usize)
        requires
            self.wf(),
        ensures
            c == self.count(word@),
    {
        match self.successors.find(word) {
            Some(i) => {
                proof {
                    lemma_index_of_unique(self.words(), i as int);
                }
                self.counts[i]
            },
            None => 0,
        }
    }

    /// Counts one more sighting of `word`.
    pub fn bump(&mut self, word: &str)
        requires
            old(self).wf(),
            old(self).total() < usize::MAX,
        ensures
            final(self).wf(),
            final(self).total() == old(self).total() + 1,
            final(self).words() == with_word(old(self).words(), word@),
            forall|b: Seq<char>|
                #![trigger final(self).count(b)]
                final(self).count(b) == old(self).count(b) + if b == word@ {
                    1nat
                } else {
                    0nat
                },
    {
        match self.successors.find(word) {
            Some(i) => {
                let c = self.counts[i];
                proof {
                    lemma_sum_bounds_each(self.counts@, i as int);
                    lemma_sum_update(self.counts@, i as int, (c + 1) as usize);
                }
                self.counts.set(i, c + 1);
                self.total = self.total + 1;
                proof {
                    assert forall|b: Seq<char>| #![trigger self.count(b)]
                        self.count(b) == old(self).count(b) + if b == word@ {
                            1nat
                        } else {
                            0nat
                        } by {
                        if self.words().contains(b) {
                            let j = self.words().index_of(b);
                            lemma_index_of_unique(self.words(), j);
                            lemma_index_of_unique(self.words(), i as int);
                        }
                    }
                }
            },
            None => {
                proof {
                    lemma_sum_push(self.counts@, 1);
                }
                let ghost before = self.words();
                self.successors.add(word);
                self.counts.push(1);
                self.total = self.total + 1;
                proof {
                    self.successors.lemma_distinct();
                    let after = self.words();
                    assert(after == before.push(word@));
                    assert forall|b: Seq<char>| #![trigger self.count(b)]
                        self.count(b) == old(self).count(b) + if b == word@ {
                            1nat
                        } else {
                            0nat
                        } by {
                        if after.contains(b) {
                            let j = after.index_of(b);
                            if j < before.len() {
                                assert(before[j] == b);
                                lemma_index_of_unique(before, j);
                            }
                        }
                        if before.contains(b) {
                            let j = before.index_of(b);
                            assert(after[j] == b);
                            lemma_index_of_unique(after, j);
                        } else if b == word@ {
                            assert(after[before.len() as int] == b);
                            lemma_index_of_unique(after, before.len() as int);
                        }
                    }
                }
            },
        }
    }
}

/// What a token sequence says of each word: the mapping from the words that
/// have a successor to their successors' counts.
pub open spec fn chain_of(tokens: Seq<Seq<char>>) -> Map<Seq<char>, Map<Seq<char>, nat>> {
    Map::new(
        |a: Seq<char>| exists|b: Seq<char>| pair_count(tokens, a, b) > 0,
        |a: Seq<char>|
            Map::new(
                |b: Seq<char>| pair_count(tokens, a, b) > 0,
                |b: Seq<char>| pair_count(tokens, a, b),
            ),
    )
}

/// The pair-frequency model.
pub struct Model {
    heads: WordList,
    rows: Vec<Row>,
    pairs: usize,
}

impl View for Model {
    type V = Map<Seq<char>, Map<Seq<char>, nat>>;

    /// The mapping from predecessor to successor to count; a pair that was
    /// never seen has no entry.
    open spec fn view(&self) -> Map<Seq<char>, Map<Seq<char>, nat>> {
        Map::new(
            |a: Seq<char>| exists|b: Seq<char>| self.count(a, b) > 0,
            |a: Seq<char>|
                Map::new(|b: Seq<char>| self.count(a, b) > 0, |b: Seq<char>| self.count(a, b)),
        )
    }
}

impl Model {
    /// The words that have a row, in the order in which they got one.
    pub closed spec fn heads(&self) -> Seq<Seq<char>> {
        self.heads@
    }

    /// The rows, in the order of `heads`.
    pub closed spec fn rows(&self) -> Seq<Row> {
        self.rows@
    }

    /// How many pairs were recorded.
    pub closed spec fn pairs(&self) -> nat {
        self.pairs as nat
    }

    /// The index of the rows agrees with their list.
    pub closed spec fn indexed(&self) -> bool {
        self.heads.wf()
    }

    /// Each word has at most one row, and each row is well formed and holds
    /// no more sightings than pairs were recorded.
    pub open spec fn wf(&self) -> bool {
        &&& self.indexed()
        &&& self.heads().no_duplicates()
        &&& self.heads().len() == self.rows().len()
        &&& forall|i: int|
            0 <= i < self.rows().len() ==> (#[trigger] self.rows()[i]).wf() && self.rows()[i].total()
                <= self.pairs()
    }

    /// The row of `a`, if it has one.
    pub open spec fn row(&self, a: Seq<char>) -> Option<Row> {
        if self.heads().contains(a) {
            Some(self.rows()[self.heads().index_of(a)])
        } else {
            None
        }
    }

    /// The successors of `a` in the order in which they are walked when one
    /// is drawn; none where `a` has no row.
    pub open spec fn successors(&self, a: Seq<char>) -> Seq<Seq<char>> {
        match self.row(a) {
            Some(row) => row.words(),
            None => Seq::empty(),
        }
    }

    /// How often `b` was recorded after `a`.
    pub open spec fn count(&self, a: Seq<char>, b: Seq<char>) -> nat {
        match self.row(a) {
            Some(row) => row.count(b),
            None => 0,
        }
    }

    /// A word has a row exactly if some successor of it was recorded.
    pub proof fn lemma_row_iff_counted(&self, a: Seq<char>)
        requires
            self.wf(),
        ensures
            self.row(a) is Some <==> self@.contains_key(a),
            self.row(a) matches Some(row) ==> row.wf() && row.as_map() == self@[a],
    {
        if self.heads().contains(a) {
            let i = self.heads().index_of(a);
            let row = self.rows()[i];
            assert(row.wf());
            let b = row.words()[0];
            lemma_index_of_unique(row.words(), 0);
            assert(row.counts()[0] >= 1);
            assert(self.count(a, b) > 0);
            assert forall|c: Seq<char>| row.words().contains(c) implies self.count(a, c) > 0 by {
                let j = row.words().index_of(c);
                assert(row.counts()[j] >= 1);
            }
            assert(row.as_map() =~= self@[a]);
        }
    }

    /// A model of no pairs.
    pub fn new() -> (model: Model)
        ensures
            model.wf(),
            model.pairs() == 0,
            model.heads() == Seq::<Seq<char>>::empty(),
            forall|a: Seq<char>, b: Seq<char>| model.count(a, b) == 0,
    {
        let model = Model { heads: WordList::new(), rows: Vec::new(), pairs: 0 };
        proof {
            model.heads.lemma_distinct();
        }
        model
    }

    /// How many words have a row.
    pub fn len(&self) -> (n: usize)
        requires
            self.wf(),
        ensures
            n == self.heads().len(),
    {
        self.rows.len()
    }

    /// The word whose row stands at place `i`.
    pub fn head_at(&self, i: usize) -> (w: &String)
        requires
            self.wf(),
            i < self.heads().len(),
        ensures
            w@ == self.heads()[i as int],
    {
        self.heads.word(i)
    }

    /// The row at place `i`.
    pub fn row_at(&self, i: usize) -> (row: &Row)
        requires
            self.wf(),
            i < self.heads().len(),
        ensures
            *row == self.rows()[i as int],
            row.wf(),
    {
        &self.rows[i]
    }

    /// The row of `word`, if it has one.
    pub fn row_of(&self, word: &str) -> (found: Option<&Row>)
        requires
            self.wf(),
        ensures
            match found {
                Some(row) => self.row(word@) == Some(*row) && row.wf(),
                None => self.row(word@) is None,
            },
    {
        match self.heads.find(word) {
            Some(i) => {
                proof {
                    lemma_index_of_unique(self.heads(), i as int);
                }
                Some(&self.rows[i])
            },
            None => None,
        }
    }

    /// Records that `second` was seen right after `first`.
    pub fn record(&mut self, first: &str, second: &str)
        requires
            old(self).wf(),
            old(self).pairs() < usize::MAX,
        ensures
            final(self).wf(),
            final(self).pairs() == old(self).pairs() + 1,
            final(self).heads() == with_word(old(self).heads(), first@),
            forall|a: Seq<char>|
                #![trigger final(self).successors(a)]
                final(self).successors(a) == if a == first@ {
                    with_word(old(self).successors(a), second@)
                } else {
                    old(self).successors(a)
                },
            forall|a: Seq<char>, b: Seq<char>|
                #![trigger final(self).count(a, b)]
                final(self).count(a, b) == old(self).count(a, b) + if a == first@ && b == second@ {
                    1nat
                } else {
                    0nat
                },
    {
        let ghost heads_before = self.heads();
        let ghost rows_before = self.rows();
        match self.heads.find(first) {
            Some(i) => {
                proof {
                    lemma_index_of_unique(heads_before, i as int);
                    assert(rows_before[i as int].wf());
                }
                self.rows[i].bump(second);
                self.pairs = self.pairs + 1;
                proof {
                    assert(self.rows() == rows_before.update(i as int, self.rows()[i as int]));
                    assert forall|j: int| 0 <= j < self.rows().len() implies (
                    #[trigger] self.rows()[j]).wf() && self.rows()[j].total() <= self.pairs() by {
                        if j != i {
                            assert(self.rows()[j] == rows_before[j]);
                            assert(rows_before[j].wf());
                        }
                    }
                    assert forall|a: Seq<char>, b: Seq<char>| #![trigger self.count(a, b)]
                        self.count(a, b) == old(self).count(a, b) + if a == first@ && b == second@ {
                            1nat
                        } else {
                            0nat
                        } by {
                        if heads_before.contains(a) {
                            let j = heads_before.index_of(a);
                            lemma_index_of_unique(heads_before, j);
                            if j != i {
                                assert(self.rows()[j] == rows_before[j]);
                            }
                        }
                    }
                    assert forall|a: Seq<char>| #![trigger self.successors(a)]
                        self.successors(a) == if a == first@ {
                            with_word(old(self).successors(a), second@)
                        } else {
                            old(self).successors(a)
                        } by {
                        if heads_before.contains(a) {
                            let j = heads_before.index_of(a);
                            lemma_index_of_unique(heads_before, j);
                            if j != i {
                                assert(self.rows()[j] == rows_before[j]);
                            }
                        }
                    }
                }
            },
            None => {
                let row = Row::single(second);
                proof {
                    lemma_index_of_unique(row.words(), 0);
                }
                self.heads.add(first);
                self.rows.push(row);
                self.pairs = self.pairs + 1;
                proof {
                    self.heads.lemma_distinct();
                    let heads_after = self.heads();
                    assert(heads_after == heads_before.push(first@));
                    assert(self.rows() == rows_before.push(row));
                    assert forall|j: int| 0 <= j < self.rows().len() implies (
                    #[trigger] self.rows()[j]).wf() && self.rows()[j].total() <= self.pairs() by {
                        if j < rows_before.len() {
                            assert(self.rows()[j] == rows_before[j]);
                            assert(rows_before[j].wf());
                        }
                    }
                    assert forall|a: Seq<char>, b: Seq<char>| #![trigger self.count(a, b)]
                        self.count(a, b) == old(self).count(a, b) + if a == first@ && b == second@ {
                            1nat
                        } else {
                            0nat
                        } by {
                        if heads_before.contains(a) {
                            let j = heads_before.index_of(a);
                            assert(heads_after[j] == a);
                            lemma_index_of_unique(heads_after, j);
                        } else if a == first@ {
                            let j = heads_before.len() as int;
                            assert(heads_after[j] == a);
                            lemma_index_of_unique(heads_after, j);
                        } else if heads_after.contains(a) {
                            let j = heads_after.index_of(a);
                            assert(j < heads_before.len());
                            assert(heads_before[j] == a);
                        }
                    }
                    assert forall|a: Seq<char>| #![trigger self.successors(a)]
                        self.successors(a) == if a == first@ {
                            with_word(old(self).successors(a), second@)
                        } else {
                            old(self).successors(a)
                        } by {
                        if heads_before.contains(a) {
                            let j = heads_before.index_of(a);
                            assert(heads_after[j] == a);
                            lemma_index_of_unique(heads_after, j);
                        } else if a == first@ {
                            let j = heads_before.len() as int;
                            assert(heads_after[j] == a);
                            lemma_index_of_unique(heads_after, j);
                            assert(Seq::<Seq<char>>::empty().push(second@) == seq![second@]);
                        } else if heads_after.contains(a) {
                            let j = heads_after.index_of(a);
                            assert(j < heads_before.len());
                            assert(heads_before[j] == a);
                        }
                    }
                }
            },
        }
    }
}

/// Neighbours in `tokens` up to place `k` are the pairs that end before `k`.
pub proof fn lemma_pair_count_step(tokens: Seq<Seq<char>>, k: int, a: Seq<char>, b: Seq<char>)
    requires
        1 <= k < tokens.len(),
    ensures
        pair_count(tokens.take(k + 1), a, b) == pair_count(tokens.take(k), a, b) + if tokens[k - 1]
            == a && tokens[k] == b {
            1nat
        } else {
            0nat
        },
{
    assert(tokens.take(k + 1).drop_last() == tokens.take(k));
}

pub proof fn lemma_followers_step(tokens: Seq<Seq<char>>, k: int, a: Seq<char>)
    requires
        1 <= k < tokens.len(),
    ensures
        followers(tokens.take(k + 1), a) == if tokens[k - 1] == a {
            followers(tokens.take(k), a).push(tokens[k])
        } else {
            followers(tokens.take(k), a)
        },
        distinct(followers(tokens.take(k + 1), a)) == if tokens[k - 1] == a {
            with_word(distinct(followers(tokens.take(k), a)), tokens[k])
        } else {
            distinct(followers(tokens.take(k), a))
        },
{
    assert(tokens.take(k + 1).drop_last() == tokens.take(k));
    let before = followers(tokens.take(k), a);
    assert(before.push(tokens[k]).drop_last() == before);
}

/// Builds the model of a token sequence: one sighting for each pair of
/// neighbours, across the whole sequence. Rows and successors stand in the
/// order in which the words were first seen in their place.
pub fn build_model(tokens: &Vec<String>) -> (model: Model)
    ensures
        model.wf(),
        forall|a: Seq<char>, b: Seq<char>|
            model.count(a, b) == pair_count(texts(tokens@), a, b),
        model@ == chain_of(texts(tokens@)),
        model.heads() == distinct(predecessors(texts(tokens@))),
        forall|a: Seq<char>| model.successors(a) == distinct(followers(texts(tokens@), a)),
        tokens@.len() > 0 ==> model.pairs() == tokens@.len() - 1,
{
    let ghost all = texts(tokens@);
    let mut model = Model::new();
    if tokens.len() == 0 {
        assert(model@ =~~= chain_of(all));
        return model;
    }
    let mut k: usize = 1;
    assert(all.take(0) == Seq::<Seq<char>>::empty());
    while k < tokens.len()
        invariant
            1 <= k <= tokens@.len(),
            all == texts(tokens@),
            model.wf(),
            model.pairs() == k - 1,
            model.heads() == distinct(all.take(k - 1)),
            forall|a: Seq<char>| model.successors(a) == distinct(followers(all.take(k as int), a)),
            forall|a: Seq<char>, b: Seq<char>|
                model.count(a, b) == pair_count(all.take(k as int), a, b),
        decreases tokens.len() - k,
    {
        let ghost before = model;
        model.record(tokens[k - 1].as_str(), tokens[k].as_str());
        proof {
            assert(all.take(k as int).drop_last() == all.take(k - 1));
            assert(all.take(k as int).last() == tokens@[k - 1]@);
            assert forall|a: Seq<char>, b: Seq<char>|
                model.count(a, b) == pair_count(all.take(k + 1), a, b) by {
                lemma_pair_count_step(all, k as int, a, b);
                assert(before.count(a, b) == pair_count(all.take(k as int), a, b));
            }
            assert forall|a: Seq<char>|
                model.successors(a) == distinct(followers(all.take(k + 1), a)) by {
                lemma_followers_step(all, k as int, a);
                assert(before.successors(a) == distinct(followers(all.take(k as int), a)));
            }
        }
        k += 1;
    }
    proof {
        assert(all.take(k as int) == all);
        assert(all.take(k - 1) == all.drop_last());
        assert forall|a: Seq<char>| model@.contains_key(a) == chain_of(all).contains_key(a) by {
            if model@.contains_key(a) {
                let b = choose|b: Seq<char>| model.count(a, b) > 0;
                assert(pair_count(all, a, b) > 0);
            }
            if chain_of(all).contains_key(a) {
                let b = choose|b: Seq<char>| pair_count(all, a, b) > 0;
                assert(model.count(a, b) > 0);
            }
        }
        assert(model@ =~~= chain_of(all));
    }
    model
}

} // verus!
