//! The random walk over the model: weighted choice of the next word, the
//! rule against repetition and the rules that end a text.

use std::collections::VecDeque;
use rand::rngs::ThreadRng;
use rand::Rng;
use rustring_builder::StringBuilder;
use vstd::prelude::*;
use crate::chain::{
    lemma_index_of_unique, lemma_sum_bounds_each, lemma_sum_take_monotone, lemma_sum_take_step,
    sum, Model, Row,
};
use crate::text::{chars_of, lemma_texts_push, texts};

verus! {

/// The number of recent words that the walk remembers.
pub const HISTORY_LIMIT: usize = 20;

/// The most steps that the walk takes after its main part.
pub const TAIL_LIMIT: usize = 20;

/// `rand::rngs::ThreadRng`, carried through as it is.
#[verifier::external_type_specification]
#[verifier::external_body]
pub struct ExThreadRng(ThreadRng);

/// `rustring_builder::StringBuilder`; `builder_text` names what one holds.
#[verifier::external_type_specification]
#[verifier::external_body]
pub struct ExStringBuilder(StringBuilder);

/// The characters that a builder holds.
pub uninterp spec fn builder_text(builder: StringBuilder) -> Seq<char>;

/// `rand::Rng::gen::<usize>` on the thread's generator: any number may come
/// back. The generator reseeds itself from the operating system now and then,
/// and panics if that source of entropy fails; nothing handed to this function
/// has a part in that.
#[verifier::external_body]
pub(crate) fn random_usize(rng: &mut ThreadRng) -> usize {
    rng.gen::<usize>()
}

/// `StringBuilder::new`: a builder that holds nothing.
#[verifier::external_body]
pub(crate) fn builder_new() -> (builder: StringBuilder)
    ensures
        builder_text(builder) == Seq::<char>::empty(),
{
    StringBuilder::new()
}

/// `StringBuilder::append` with a string slice: its characters are added at the end.
#[verifier::external_body]
pub(crate) fn builder_append(builder: &mut StringBuilder, s: &str)
    ensures
        builder_text(*final(builder)) == builder_text(*old(builder)) + s@,
{
    builder.append(s);
}

/// `StringBuilder::to_string`: the string of the characters that the builder holds.
#[verifier::external_body]
pub(crate) fn builder_to_string(builder: &StringBuilder) -> (s: String)
    ensures
        s@ == builder_text(*builder),
{
    builder.to_string()
}

/// Whether place `i` is the first one at which the running sum of `counts`
/// reaches `n`.
pub open spec fn is_pick(counts: Seq<usize>, n: nat, i: int) -> bool {
    &&& 0 <= i < counts.len()
    &&& sum(counts.take(i + 1)) >= n
    &&& forall|j: int| 0 <= j < i ==> sum(#[trigger] counts.take(j + 1)) < n
}

/// The first place at which the running sum of `counts` reaches `n`.
pub open spec fn picked(counts: Seq<usize>, n: nat) -> int {
    choose|i: int| is_pick(counts, n, i)
}

/// At most one place is the pick of a number.
pub proof fn lemma_pick_unique(counts: Seq<usize>, n: nat, i: int)
    requires
        is_pick(counts, n, i),
    ensures
        picked(counts, n) == i,
{
    let j = picked(counts, n);
    assert(is_pick(counts, n, j));
    if j < i {
        assert(sum(counts.take(j + 1)) < n);
    }
    if i < j {
        assert(sum(counts.take(i + 1)) < n);
    }
}

/// A number picks the place whose share of the running sum it falls into:
/// place `i` is picked by the numbers above the sum of the counts before it,
/// up to that sum plus its own count, and the first place by 0 as well.
pub proof fn lemma_pick_interval(counts: Seq<usize>, n: nat, i: int)
    requires
        0 <= i < counts.len(),
    ensures
        is_pick(counts, n, i) <==> (i == 0 || sum(counts.take(i)) < n) && n <= sum(counts.take(i))
            + counts[i],
{
    lemma_sum_take_step(counts, i);
    if (i == 0 || sum(counts.take(i)) < n) && n <= sum(counts.take(i)) + counts[i] {
        assert forall|j: int| 0 <= j < i implies sum(#[trigger] counts.take(j + 1)) < n by {
            lemma_sum_take_monotone(counts, j + 1, i);
        }
    }
    if is_pick(counts, n, i) && i > 0 {
        assert(sum(counts.take((i - 1) + 1)) < n);
    }
}

/// Every number up to the sum of the counts picks a place.
pub proof fn lemma_pick_exists(counts: Seq<usize>, n: nat)
    requires
        counts.len() > 0,
        n <= sum(counts),
    ensures
        is_pick(counts, n, picked(counts, n)),
    decreases counts.len(),
{
    let last = counts.len() - 1;
    assert(counts.take(last + 1) == counts);
    assert(counts.take(last) == counts.drop_last());
    if counts.len() > 1 && n <= sum(counts.drop_last()) {
        let shorter = counts.drop_last();
        lemma_pick_exists(shorter, n);
        let i = picked(shorter, n);
        assert(shorter.take(i + 1) == counts.take(i + 1));
        assert forall|j: int| 0 <= j < i implies sum(#[trigger] counts.take(j + 1)) < n by {
            assert(shorter.take(j + 1) == counts.take(j + 1));
        }
        assert(is_pick(counts, n, i));
    } else {
        assert forall|j: int| 0 <= j < last implies sum(#[trigger] counts.take(j + 1)) < n by {
            lemma_sum_take_monotone(counts, j + 1, last);
        }
        assert(is_pick(counts, n, last));
    }
}

/// Whatever is drawn, the word that is picked from a row is one of its
/// successors, seen at least once.
pub proof fn lemma_sampled_was_seen(row: Row, draw: usize)
    requires
        row.wf(),
    ensures
        row.words().contains(sampled(row, draw)),
        row.count(sampled(row, draw)) >= 1,
{
    lemma_sum_bounds_each(row.counts(), 0);
    let n = (draw as nat) % row.total();
    lemma_pick_exists(row.counts(), n);
    let i = picked(row.counts(), n);
    lemma_index_of_unique(row.words(), i);
    assert(row.counts()[i] >= 1);
}

/// The successor that `draw` picks from a row.
pub open spec fn sampled(row: Row, draw: usize) -> Seq<char> {
    row.words()[picked(row.counts(), (draw as nat) % row.total())]
}

/// The successor that `draw` picks for `word`; none where the word has no row.
pub open spec fn successor(model: Model, word: Seq<char>, draw: usize) -> Option<Seq<char>> {
    match model.row(word) {
        Some(row) => Some(sampled(row, draw)),
        None => None,
    }
}

/// The first place of `row` at which the running sum of the counts reaches `n`.
pub fn pick(row: &Row, n: usize) -> (i: usize)
    requires
        row.wf(),
        n <= row.total(),
    ensures
        is_pick(row.counts(), n as nat, i as int),
        i == picked(row.counts(), n as nat),
{
    let len = row.len();
    let mut i: usize = 0;
    let mut acc: usize = row.count_at(0);
    proof {
        lemma_sum_take_step(row.counts(), 0);
        assert(row.counts().take(0) == Seq::<usize>::empty());
    }
    while acc < n
        invariant
            row.wf(),
            n <= row.total(),
            len == row.counts().len(),
            i < len,
            acc == sum(row.counts().take(i + 1)),
            forall|j: int| 0 <= j < i ==> sum(#[trigger] row.counts().take(j + 1)) < n,
        decreases len - i,
    {
        proof {
            assert(row.counts().take(len as int) == row.counts());
            if i + 1 < len {
                lemma_sum_take_step(row.counts(), i + 1);
                lemma_sum_take_monotone(row.counts(), i + 2, len as int);
            }
        }
        i += 1;
        acc += row.count_at(i);
    }
    proof {
        lemma_pick_unique(row.counts(), n as nat, i as int);
    }
    i
}

/// The successor that `draw` picks from `row`: the draw is reduced modulo the
/// row's total, and the row is walked until the running sum reaches it.
pub fn sample(row: &Row, draw: usize) -> (next: &String)
    requires
        row.wf(),
    ensures
        next@ == sampled(*row, draw),
{
    proof {
        lemma_sum_bounds_each(row.counts(), 0);
    }
    let n = draw % row.total_count();
    let i = pick(row, n);
    row.word_at(i)
}

/// The successor that `draw` picks for `word`; none where the word has no row.
pub fn next_word(model: &Model, word: &str, draw: usize) -> (next: Option<String>)
    requires
        model.wf(),
    ensures
        match next {
            Some(s) => successor(*model, word@, draw) == Some(s@),
            None => successor(*model, word@, draw) is None,
        },
{
    match model.row_of(word) {
        Some(row) => Some(sample(row, draw).clone()),
        None => None,
    }
}

/// How often `word` stands in `history`.
pub open spec fn occurrences(history: Seq<Seq<char>>, word: Seq<char>) -> nat
    decreases history.len(),
{
    if history.len() == 0 {
        0
    } else {
        occurrences(history.drop_last(), word) + if history.last() == word {
            1nat
        } else {
            0nat
        }
    }
}

/// The history once `word` has joined it: the oldest word leaves when the
/// history has grown over `HISTORY_LIMIT` words.
pub open spec fn remembered(history: Seq<Seq<char>>, word: Seq<char>) -> Seq<Seq<char>> {
    let longer = history.push(word);
    if longer.len() > HISTORY_LIMIT {
        longer.skip(1)
    } else {
        longer
    }
}

/// The text of some words: each word with one space after it.
pub open spec fn rendered(words: Seq<Seq<char>>) -> Seq<char>
    decreases words.len(),
{
    if words.len() == 0 {
        Seq::empty()
    } else {
        rendered(words.drop_last()) + words.last() + seq![' ']
    }
}

/// Whether a word closes a sentence.
pub open spec fn ends_sentence(word: Seq<char>) -> bool {
    word.len() > 0 && word.last() == '.'
}

/// A walk as a value: the word it stands on, the words it remembers and
/// the words it has put out.
pub struct WalkState {
    pub current: Seq<char>,
    pub history: Seq<Seq<char>>,
    pub output: Seq<Seq<char>>,
}

/// A walk that begins on `word`.
pub open spec fn started(word: Seq<char>) -> WalkState {
    WalkState { current: word, history: seq![word], output: seq![word] }
}

/// Whether the word that the walk stands on has come up too often for the
/// main part to go on from it.
pub open spec fn restarts(w: WalkState) -> bool {
    occurrences(w.history, w.current) > 1
}

/// Whether the word that the walk stands on has come up too often for the
/// tail to go on.
pub open spec fn halts(w: WalkState) -> bool {
    occurrences(w.history, w.current) > 2
}

/// One step of the main part. A walk that restarts first moves to the pool
/// word that `restart_draw` selects. Then the successor that `draw` picks, if
/// there is one, becomes the current word, is put out and is remembered.
pub open spec fn main_stepped(
    model: Model,
    pool: Seq<Seq<char>>,
    w: WalkState,
    restart_draw: usize,
    draw: usize,
) -> WalkState {
    let from = if restarts(w) {
        pool[(restart_draw as int) % (pool.len() as int)]
    } else {
        w.current
    };
    match successor(model, from, draw) {
        Some(next) => WalkState {
            current: next,
            history: remembered(w.history, next),
            output: w.output.push(next),
        },
        None => WalkState { current: from, history: w.history, output: w.output },
    }
}

/// One step of the tail: the successor that `draw` picks, if there is one,
/// becomes the current word and is put out. The tail remembers nothing new.
pub open spec fn tail_stepped(model: Model, w: WalkState, draw: usize) -> WalkState {
    match successor(model, w.current, draw) {
        Some(next) => WalkState { current: next, history: w.history, output: w.output.push(next) },
        None => w,
    }
}

/// Whether the tail step with `draw` puts out a word that closes a sentence.
pub open spec fn tail_finishes(model: Model, w: WalkState, draw: usize) -> bool {
    successor(model, w.current, draw) matches Some(next) && ends_sentence(next)
}

/// A walk whose current word stands more than once in its history does not
/// go on from it in the main part: the step starts from the pool word that
/// the restart draw selects, and what it puts out is a successor of that word.
pub proof fn lemma_restart_leaves_current(
    model: Model,
    pool: Seq<Seq<char>>,
    w: WalkState,
    restart_draw: usize,
    draw: usize,
)
    requires
        restarts(w),
        pool.len() > 0,
    ensures
        ({
            let from = pool[(restart_draw as int) % (pool.len() as int)];
            let after = main_stepped(model, pool, w, restart_draw, draw);
            &&& pool.contains(from)
            &&& match successor(model, from, draw) {
                Some(next) => after.current == next && after.output == w.output.push(next),
                None => after.current == from && after.output == w.output,
            }
        }),
{
}

/// A walk in progress.
pub struct Walk {
    current: String,
    history: VecDeque<String>,
    words: Vec<String>,
    text: StringBuilder,
}

impl View for Walk {
    type V = WalkState;

    closed spec fn view(&self) -> WalkState {
        WalkState {
            current: self.current@,
            history: texts(self.history@),
            output: texts(self.words@),
        }
    }
}

impl Walk {
    /// The text built so far.
    pub closed spec fn text(&self) -> Seq<char> {
        builder_text(self.text)
    }

    /// The history is within its limit and the text is that of the words put out.
    pub open spec fn wf(&self) -> bool {
        &&& self@.history.len() <= HISTORY_LIMIT
        &&& self.text() == rendered(self@.output)
    }

    /// A walk that begins on `word`.
    pub fn start(word: &str) -> (walk: Walk)
        ensures
            walk.wf(),
            walk@ == started(word@),
    {
        let mut walk = Walk {
            current: word.to_owned(),
            history: VecDeque::new(),
            words: Vec::new(),
            text: builder_new(),
        };
        assert(walk@.output == Seq::<Seq<char>>::empty());
        assert(walk@.history == Seq::<Seq<char>>::empty());
        walk.put_out(word);
        walk.remember(word);
        assert(walk@.history == seq![word@]);
        assert(walk@.output == seq![word@]);
        walk
    }

    /// The word that the walk stands on.
    pub fn current(&self) -> (word: &String)
        ensures
            word@ == self@.current,
    {
        &self.current
    }

    /// The words put out so far.
    pub fn words(&self) -> (words: &Vec<String>)
        ensures
            texts(words@) == self@.output,
    {
        &self.words
    }

    /// The text of the words put out so far.
    pub fn to_text(&self) -> (text: String)
        ensures
            text@ == self.text(),
    {
        builder_to_string(&self.text)
    }

    /// How often the current word stands in the history.
    pub fn repetitions(&self) -> (n: usize)
        requires
            self.wf(),
        ensures
            n == occurrences(self@.history, self@.current),
    {
        let mut n: usize = 0;
        let mut i: usize = 0;
        assert(texts(self.history@).take(0) == Seq::<Seq<char>>::empty());
        while i < self.history.len()
            invariant
                i <= self.history@.len() <= HISTORY_LIMIT,
                n == occurrences(texts(self.history@).take(i as int), self.current@),
                n <= i,
            decreases self.history.len() - i,
        {
            proof {
                let upto = texts(self.history@).take(i + 1);
                assert(upto.drop_last() == texts(self.history@).take(i as int));
                assert(upto.last() == self.history@[i as int]@);
            }
            if self.history[i] == self.current {
                n += 1;
            }
            i += 1;
        }
        assert(texts(self.history@).take(self.history@.len() as int) == texts(self.history@));
        n
    }

    fn remember(&mut self, word: &str)
        requires
            old(self)@.history.len() <= HISTORY_LIMIT,
        ensures
            final(self)@.history == remembered(old(self)@.history, word@),
            final(self)@.history.len() <= HISTORY_LIMIT,
            final(self)@.current == old(self)@.current,
            final(self)@.output == old(self)@.output,
            final(self).text() == old(self).text(),
    {
        let kept = word.to_owned();
        proof {
            lemma_texts_push(self.history@, kept);
        }
        self.history.push_back(kept);
        if self.history.len() > HISTORY_LIMIT {
            let ghost longer = self.history@;
            self.history.pop_front();
            assert(texts(self.history@) == texts(longer).skip(1));
        }
    }

    fn put_out(&mut self, word: &str)
        requires
            old(self).text() == rendered(old(self)@.output),
        ensures
            final(self)@.output == old(self)@.output.push(word@),
            final(self).text() == rendered(final(self)@.output),
            final(self)@.current == old(self)@.current,
            final(self)@.history == old(self)@.history,
    {
        let kept = word.to_owned();
        proof {
            lemma_texts_push(self.words@, kept);
            reveal_strlit(" ");
            assert(" "@ == seq![' ']);
            assert(old(self)@.output.push(word@).drop_last() == old(self)@.output);
        }
        self.words.push(kept);
        builder_append(&mut self.text, word);
        builder_append(&mut self.text, " ");
    }

    /// One step of the main part of the walk.
    pub fn main_step(&mut self, model: &Model, pool: &Vec<String>, restart_draw: usize, draw: usize)
        requires
            old(self).wf(),
            model.wf(),
            pool@.len() > 0,
        ensures
            final(self).wf(),
            final(self)@ == main_stepped(*model, texts(pool@), old(self)@, restart_draw, draw),
    {
        if self.repetitions() > 1 {
            self.current = pool[restart_draw % pool.len()].clone();
        }
        match next_word(model, self.current.as_str(), draw) {
            Some(next) => {
                self.put_out(next.as_str());
                self.remember(next.as_str());
                self.current = next;
            },
            None => {},
        }
    }

    /// Whether the tail of the walk may not go on from the current word.
    pub fn halted(&self) -> (b: bool)
        requires
            self.wf(),
        ensures
            b == halts(self@),
    {
        self.repetitions() > 2
    }

    /// One step of the tail of the walk; tells whether it put out a word
    /// that closes a sentence.
    pub fn tail_step(&mut self, model: &Model, draw: usize) -> (finished: bool)
        requires
            old(self).wf(),
            model.wf(),
        ensures
            final(self).wf(),
            final(self)@ == tail_stepped(*model, old(self)@, draw),
            finished == tail_finishes(*model, old(self)@, draw),
    {
        match next_word(model, self.current.as_str(), draw) {
            Some(next) => {
                self.put_out(next.as_str());
                let finished = closes_sentence(next.as_str());
                self.current = next;
                finished
            },
            None => false,
        }
    }
}

/// Whether the last character of `word` is a full stop.
pub fn closes_sentence(word: &str) -> (b: bool)
    ensures
        b == ends_sentence(word@),
{
    let chars = chars_of(word);
    chars.len() > 0 && chars[chars.len() - 1] == '.'
}

/// The pool word on which a walk with first draw `draw` begins.
pub open spec fn first_word(pool: Seq<Seq<char>>, draw: usize) -> Seq<char> {
    pool[(draw as int) % (pool.len() as int)]
}

/// The walk after `k` steps of its main part. The first draw selects the
/// word it begins on; step `k` restarts by draw `2k - 1` and samples by draw `2k`.
pub open spec fn main_run(model: Model, pool: Seq<Seq<char>>, draws: Seq<usize>, k: nat) -> WalkState
    decreases k,
{
    if k == 0 {
        started(first_word(pool, draws[0]))
    } else {
        main_stepped(
            model,
            pool,
            main_run(model, pool, draws, (k - 1) as nat),
            draws[2 * k - 1],
            draws[2 * k as int],
        )
    }
}

/// The walk after a main part of `count` steps and `t` steps of the tail,
/// each of which samples by the next draw.
pub open spec fn tail_run(
    model: Model,
    pool: Seq<Seq<char>>,
    draws: Seq<usize>,
    count: nat,
    t: nat,
) -> WalkState
    decreases t,
{
    if t == 0 {
        main_run(model, pool, draws, count)
    } else {
        tail_stepped(
            model,
            tail_run(model, pool, draws, count, (t - 1) as nat),
            draws[2 * count + t as int],
        )
    }
}

/// How many tail steps a walk with these draws took after `count` main steps.
pub open spec fn tail_steps(draws: Seq<usize>, count: nat) -> int {
    draws.len() - 1 - 2 * count
}

/// Whether the tail ended where it had to: it took no step from a halted
/// walk and none after a word that closes a sentence, and it went on until
/// one of the two happened or `TAIL_LIMIT` steps were taken.
pub open spec fn tail_ended_rightly(
    model: Model,
    pool: Seq<Seq<char>>,
    draws: Seq<usize>,
    count: nat,
) -> bool {
    let t = tail_steps(draws, count);
    &&& 0 <= t <= TAIL_LIMIT
    &&& forall|j: nat|
        j < t ==> {
            let before = #[trigger] tail_run(model, pool, draws, count, j);
            &&& !halts(before)
            &&& j + 1 < t ==> !tail_finishes(model, before, draws[2 * count + j + 1 as int])
        }
    &&& {
        ||| t == TAIL_LIMIT
        ||| halts(tail_run(model, pool, draws, count, t as nat))
        ||| t > 0 && tail_finishes(
            model,
            tail_run(model, pool, draws, count, (t - 1) as nat),
            draws[2 * count + t as int],
        )
    }
}

/// A run depends on the draws that it has used only.
pub proof fn lemma_main_run_extends(
    model: Model,
    pool: Seq<Seq<char>>,
    draws: Seq<usize>,
    longer: Seq<usize>,
    k: nat,
)
    requires
        draws.len() >= 1 + 2 * k,
        longer.len() >= draws.len(),
        longer.take(draws.len() as int) == draws,
    ensures
        main_run(model, pool, longer, k) == main_run(model, pool, draws, k),
    decreases k,
{
    assert(forall|i: int| 0 <= i < draws.len() ==> draws[i] == longer.take(draws.len() as int)[i]);
    if k > 0 {
        lemma_main_run_extends(model, pool, draws, longer, (k - 1) as nat);
    }
}

/// The same for the tail.
pub proof fn lemma_tail_run_extends(
    model: Model,
    pool: Seq<Seq<char>>,
    draws: Seq<usize>,
    longer: Seq<usize>,
    count: nat,
    t: nat,
)
    requires
        draws.len() >= 1 + 2 * count + t,
        longer.len() >= draws.len(),
        longer.take(draws.len() as int) == draws,
    ensures
        tail_run(model, pool, longer, count, t) == tail_run(model, pool, draws, count, t),
    decreases t,
{
    assert(forall|i: int| 0 <= i < draws.len() ==> draws[i] == longer.take(draws.len() as int)[i]);
    if t > 0 {
        lemma_tail_run_extends(model, pool, draws, longer, count, (t - 1) as nat);
    } else {
        lemma_main_run_extends(model, pool, draws, longer, count);
    }
}

/// In a tail that ended rightly, a word that closes a sentence is the last
/// word: the step that put it out is the last step, however few were taken.
pub proof fn lemma_sentence_end_stops_tail(
    model: Model,
    pool: Seq<Seq<char>>,
    draws: Seq<usize>,
    count: nat,
    step: nat,
)
    requires
        tail_ended_rightly(model, pool, draws, count),
        1 <= step <= tail_steps(draws, count),
        tail_finishes(
            model,
            tail_run(model, pool, draws, count, (step - 1) as nat),
            draws[2 * count + step as int],
        ),
    ensures
        step == tail_steps(draws, count),
{
    let before = (step - 1) as nat;
    assert(!halts(tail_run(model, pool, draws, count, before)));
}

/// What a finished walk hands back: the words in the order in which they
/// were put out, their text, and the numbers that were drawn on the way.
pub struct Generated {
    pub words: Vec<String>,
    pub text: String,
    pub draws: Vec<usize>,
}

/// Walks the model from a random word of `pool`: `count` steps of the main
/// part, then the tail. There is no walk over an empty pool. Whatever was
/// drawn, the words are those of the run that these draws give.
pub fn generate(model: &Model, pool: &Vec<String>, count: usize, rng: &mut ThreadRng) -> (out:
    Option<Generated>)
    requires
        model.wf(),
    ensures
        out is None <==> pool@.len() == 0,
        out matches Some(g) ==> {
            &&& tail_ended_rightly(*model, texts(pool@), g.draws@, count as nat)
            &&& texts(g.words@) == tail_run(
                *model,
                texts(pool@),
                g.draws@,
                count as nat,
                tail_steps(g.draws@, count as nat) as nat,
            ).output
            &&& g.text@ == rendered(texts(g.words@))
        },
{
    if pool.len() == 0 {
        return None;
    }
    let ghost words = texts(pool@);
    let mut draws: Vec<usize> = Vec::new();
    let first = random_usize(rng);
    draws.push(first);
    let mut walk = Walk::start(pool[first % pool.len()].as_str());
    let mut k: usize = 0;
    while k < count
        invariant
            k <= count,
            model.wf(),
            walk.wf(),
            pool@.len() > 0,
            words == texts(pool@),
            draws@.len() == 1 + 2 * k,
            walk@ == main_run(*model, words, draws@, k as nat),
        decreases count - k,
    {
        let ghost before = draws@;
        let restart_draw = random_usize(rng);
        let draw = random_usize(rng);
        draws.push(restart_draw);
        draws.push(draw);
        walk.main_step(model, pool, restart_draw, draw);
        proof {
            assert(draws@.take(before.len() as int) == before);
            lemma_main_run_extends(*model, words, before, draws@, k as nat);
        }
        k += 1;
    }
    let mut t: usize = 0;
    let mut finished = false;
    let mut halted = walk.halted();
    while t < TAIL_LIMIT && !finished && !halted
        invariant
            t <= TAIL_LIMIT,
            model.wf(),
            walk.wf(),
            words == texts(pool@),
            draws@.len() == 1 + 2 * count + t,
            walk@ == tail_run(*model, words, draws@, count as nat, t as nat),
            halted == halts(walk@),
            t == 0 ==> !finished,
            t > 0 ==> finished == tail_finishes(
                *model,
                tail_run(*model, words, draws@, count as nat, (t - 1) as nat),
                draws@[2 * count + t as int],
            ),
            forall|j: nat|
                j < t ==> {
                    let before = #[trigger] tail_run(*model, words, draws@, count as nat, j);
                    &&& !halts(before)
                    &&& j + 1 < t ==> !tail_finishes(*model, before, draws@[2 * count + j + 1 as int])
                },
        decreases TAIL_LIMIT - t,
    {
        let ghost before = draws@;
        let draw = random_usize(rng);
        draws.push(draw);
        finished = walk.tail_step(model, draw);
        proof {
            let c = count as nat;
            let tn = t as nat;
            assert(draws@.take(before.len() as int) == before);
            assert forall|j: nat| j <= tn implies #[trigger] tail_run(*model, words, draws@, c, j)
                == tail_run(*model, words, before, c, j) by {
                lemma_tail_run_extends(*model, words, before, draws@, c, j);
            }
            assert(forall|i: int| 0 <= i < before.len() ==> draws@[i] == before[i]);
            assert(tail_run(*model, words, draws@, c, tn) == tail_run(*model, words, before, c, tn));
            assert(draws@[2 * c + tn + 1 as int] == draw);
            assert(walk@ == tail_run(*model, words, draws@, c, tn + 1));
            assert forall|j: nat| j < tn + 1 implies {
                let was = #[trigger] tail_run(*model, words, draws@, c, j);
                &&& !halts(was)
                &&& j + 1 < tn + 1 ==> !tail_finishes(*model, was, draws@[2 * c + j + 1 as int])
            } by {
                assert(tail_run(*model, words, draws@, c, j) == tail_run(
                    *model,
                    words,
                    before,
                    c,
                    j,
                ));
                if j + 1 < tn + 1 {
                    assert(draws@[2 * c + j + 1 as int] == before[2 * c + j + 1 as int]);
                }
            }
        }
        t += 1;
        halted = walk.halted();
    }
    let text = walk.to_text();
    let Walk { current: _, history: _, words: output, text: _ } = walk;
    Some(Generated { words: output, text, draws })
}

} // verus!
