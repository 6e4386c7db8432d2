//! The chain engine: vocabulary interning, context keys, weighted transition
//! buckets, training updates, pruning, and the weighted-random generation walk.

use crate::words::{is_quote_name, quote_word, str_eq};
use rand::RngExt;
use vstd::prelude::*;

verus! {

/// A dense, zero-based identifier for an interned word string.
/// Identifier 0 is reserved for the empty-string sentinel.
#[derive(Clone, Copy, Debug, PartialEq, Eq, Structural)]
pub struct WordId(pub u32);

/// An ordered triple of the three most recent word identifiers,
/// used as the key of the transition table.
#[derive(Clone, Copy, Debug, PartialEq, Eq, Structural)]
pub struct State(pub WordId, pub WordId, pub WordId);

impl State {
    /// Slides the fixed-width window one step: drops the oldest identifier
    /// and appends `next`.
    pub fn push(&mut self, next: WordId)
        ensures
            *final(self) == old(self).slide(next),
    {
        let moved = State(self.1, self.2, next);
        *self = moved;
    }

    /// The state reached from `self` after emitting `next`.
    pub open spec fn slide(self, next: WordId) -> State {
        State(self.1, self.2, next)
    }
}

/// The sentinel context that every walk and every fresh cursor starts from.
pub open spec fn begin_state() -> State {
    State(WordId(0), WordId(0), WordId(0))
}

/// One successor of a context, with the number of times it was observed.
#[derive(Clone, Copy, Debug, PartialEq, Eq, Structural)]
pub struct ChoiceWeight {
    pub item: WordId,
    pub weight: u32,
}

/// The weighted successors recorded for one context, with a cached sum of
/// all the weights.
#[derive(Clone, Debug)]
pub struct Choices {
    pub choices: Vec<ChoiceWeight>,
    pub total: u32,
}

/// One row of the transition table: a context key and its bucket.
#[derive(Clone, Debug)]
pub struct Edge {
    pub key: State,
    pub bucket: Choices,
}

/// A chain: an append-only vocabulary and a transition table keyed by
/// three-word contexts.
#[derive(Clone, Debug)]
pub struct Chain {
    pub words: Vec<String>,
    pub graph: Vec<Edge>,
}

/// Mathematical model of one transition-table row.
#[verifier::ext_equal]
pub struct EdgeV {
    pub key: State,
    pub entries: Seq<ChoiceWeight>,
    pub total: u32,
}

/// Mathematical model of a chain: the word strings by identifier, and the
/// rows of the transition table in insertion order.
#[verifier::ext_equal]
pub struct ChainV {
    pub words: Seq<Seq<char>>,
    pub edges: Seq<EdgeV>,
}

impl View for Chain {
    type V = ChainV;

    open spec fn view(&self) -> ChainV {
        ChainV {
            words: self.words@.map_values(|w: String| w@),
            edges: self.graph@.map_values(
                |e: Edge| EdgeV { key: e.key, entries: e.bucket.choices@, total: e.bucket.total },
            ),
        }
    }
}

/// The index of the first word equal to `w` at or after position `from`.
pub open spec fn first_word_index(words: Seq<Seq<char>>, w: Seq<char>, from: int) -> Option<int>
    decreases words.len() - from,
{
    if from < 0 || from >= words.len() {
        None
    } else if words[from] == w {
        Some(from)
    } else {
        first_word_index(words, w, from + 1)
    }
}

/// The identifier that the vocabulary `words` assigns to the string `w`, if
/// any. The two-character string `""` (a pair of quotation marks) is an
/// alias for the sentinel at identifier 0, so that a user can name the
/// beginning of a sentence.
pub open spec fn word_index(words: Seq<Seq<char>>, w: Seq<char>) -> Option<int> {
    if w == quote_word() {
        Some(0)
    } else {
        first_word_index(words, w, 0)
    }
}

/// The vocabulary after interning `w`: unchanged if `w` is already known,
/// else extended by one entry.
pub open spec fn intern_words(words: Seq<Seq<char>>, w: Seq<char>) -> Seq<Seq<char>> {
    if word_index(words, w) is Some {
        words
    } else {
        words.push(w)
    }
}

/// The identifier that interning `w` into `words` yields.
pub open spec fn interned_id(words: Seq<Seq<char>>, w: Seq<char>) -> int {
    match word_index(intern_words(words, w), w) {
        Some(i) => i,
        None => 0,
    }
}

/// A found word index always names a vocabulary entry, provided the
/// vocabulary holds its sentinel.
pub proof fn lemma_word_index_range(words: Seq<Seq<char>>, w: Seq<char>)
    requires
        words.len() >= 1,
    ensures
        match word_index(words, w) {
            Some(i) => 0 <= i < words.len(),
            None => true,
        },
{
    if w == quote_word() {
    } else {
        lemma_first_word_index(words, w, 0);
    }
}

/// The index of the row keyed by `key` at or after position `from`.
pub open spec fn first_edge_index(edges: Seq<EdgeV>, key: State, from: int) -> Option<int>
    decreases edges.len() - from,
{
    if from < 0 || from >= edges.len() {
        None
    } else if edges[from].key == key {
        Some(from)
    } else {
        first_edge_index(edges, key, from + 1)
    }
}

/// The index of the transition-table row for `key`, if one exists.
pub open spec fn edge_index(edges: Seq<EdgeV>, key: State) -> Option<int> {
    first_edge_index(edges, key, 0)
}

/// The index of the entry for successor `item` at or after position `from`.
pub open spec fn first_entry_index(entries: Seq<ChoiceWeight>, item: WordId, from: int) -> Option<
    int,
>
    decreases entries.len() - from,
{
    if from < 0 || from >= entries.len() {
        None
    } else if entries[from].item == item {
        Some(from)
    } else {
        first_entry_index(entries, item, from + 1)
    }
}

/// The index of the entry for successor `item` in a bucket, if one exists.
pub open spec fn entry_index(entries: Seq<ChoiceWeight>, item: WordId) -> Option<int> {
    first_entry_index(entries, item, 0)
}

/// The sum of the weights of a bucket's entries.
pub open spec fn weight_sum(entries: Seq<ChoiceWeight>) -> int
    decreases entries.len(),
{
    if entries.len() == 0 {
        0
    } else {
        entries[0].weight + weight_sum(entries.drop_first())
    }
}

/// A well-formed bucket for a vocabulary of `nwords` entries: the cached
/// total is the sum of the weights, no successor appears twice, and every
/// successor is a known word.
pub open spec fn wf_bucket(entries: Seq<ChoiceWeight>, total: u32, nwords: int) -> bool {
    &&& total == weight_sum(entries)
    &&& forall|p: int, q: int| 0 <= p < q < entries.len() ==> entries[p].item != entries[q].item
    &&& forall|p: int| 0 <= p < entries.len() ==> (#[trigger] entries[p].item).0 < nwords
}

impl ChainV {
    /// Chain invariant: the sentinel empty string sits at identifier 0,
    /// words are distinct and never the quotation alias, identifiers fit in
    /// the identifier type, context keys are distinct, and every bucket is
    /// well formed.
    pub open spec fn wf(self) -> bool {
        &&& 1 <= self.words.len() <= u32::MAX
        &&& self.words[0] == Seq::<char>::empty()
        &&& forall|i: int| 1 <= i < self.words.len() ==> self.words[i] != quote_word()
        &&& forall|i: int, j: int| 0 <= i < j < self.words.len() ==> self.words[i] != self.words[j]
        &&& forall|i: int, j: int|
            0 <= i < j < self.edges.len() ==> (#[trigger] self.edges[i]).key
                != (#[trigger] self.edges[j]).key
        &&& forall|i: int|
            0 <= i < self.edges.len() ==> wf_bucket(
                (#[trigger] self.edges[i]).entries,
                self.edges[i].total,
                self.words.len() as int,
            )
    }
}

/// What a scan for a word settles: a found index is the first match, and a
/// miss means no position matches.
pub proof fn lemma_first_word_index(words: Seq<Seq<char>>, w: Seq<char>, from: int)
    requires
        0 <= from <= words.len(),
    ensures
        match first_word_index(words, w, from) {
            Some(i) => from <= i < words.len() && words[i] == w && forall|j: int|
                from <= j < i ==> words[j] != w,
            None => forall|j: int| from <= j < words.len() ==> words[j] != w,
        },
    decreases words.len() - from,
{
    if from < words.len() && words[from] != w {
        lemma_first_word_index(words, w, from + 1);
    }
}

pub proof fn lemma_first_edge_index(edges: Seq<EdgeV>, key: State, from: int)
    requires
        0 <= from <= edges.len(),
    ensures
        match first_edge_index(edges, key, from) {
            Some(i) => from <= i < edges.len() && edges[i].key == key && forall|j: int|
                from <= j < i ==> edges[j].key != key,
            None => forall|j: int| from <= j < edges.len() ==> edges[j].key != key,
        },
    decreases edges.len() - from,
{
    if from < edges.len() && edges[from].key != key {
        lemma_first_edge_index(edges, key, from + 1);
    }
}

pub proof fn lemma_first_entry_index(entries: Seq<ChoiceWeight>, item: WordId, from: int)
    requires
        0 <= from <= entries.len(),
    ensures
        match first_entry_index(entries, item, from) {
            Some(i) => from <= i < entries.len() && entries[i].item == item && forall|j: int|
                from <= j < i ==> entries[j].item != item,
            None => forall|j: int| from <= j < entries.len() ==> entries[j].item != item,
        },
    decreases entries.len() - from,
{
    if from < entries.len() && entries[from].item != item {
        lemma_first_entry_index(entries, item, from + 1);
    }
}

/// A position whose row matches, with no earlier match, is the index that
/// [`edge_index`] finds.
pub proof fn lemma_edge_index_is(edges: Seq<EdgeV>, key: State, i: int)
    requires
        0 <= i < edges.len(),
        edges[i].key == key,
        forall|k: int| 0 <= k < i ==> (#[trigger] edges[k]).key != key,
    ensures
        edge_index(edges, key) == Some(i),
{
    lemma_first_edge_index(edges, key, 0);
    match first_edge_index(edges, key, 0) {
        None => {
            assert(edges[i].key != key);
        },
        Some(r) => {
            if r < i {
                assert(edges[r].key != key);
            } else if r > i {
                assert(edges[i].key != key);
            }
        },
    }
}

/// A position whose entry matches, with no earlier match, is the index that
/// [`entry_index`] finds.
pub proof fn lemma_entry_index_is(entries: Seq<ChoiceWeight>, item: WordId, j: int)
    requires
        0 <= j < entries.len(),
        entries[j].item == item,
        forall|k: int| 0 <= k < j ==> (#[trigger] entries[k]).item != item,
    ensures
        entry_index(entries, item) == Some(j),
{
    lemma_first_entry_index(entries, item, 0);
    match first_entry_index(entries, item, 0) {
        None => {
            assert(entries[j].item != item);
        },
        Some(r) => {
            if r < j {
                assert(entries[r].item != item);
            } else if r > j {
                assert(entries[j].item != item);
            }
        },
    }
}

pub proof fn lemma_weight_sum_nonneg(entries: Seq<ChoiceWeight>)
    ensures
        weight_sum(entries) >= 0,
    decreases entries.len(),
{
    if entries.len() > 0 {
        lemma_weight_sum_nonneg(entries.drop_first());
    }
}

pub proof fn lemma_weight_sum_le(entries: Seq<ChoiceWeight>, j: int)
    requires
        0 <= j < entries.len(),
    ensures
        entries[j].weight <= weight_sum(entries),
    decreases entries.len(),
{
    if j == 0 {
        lemma_weight_sum_nonneg(entries.drop_first());
    } else {
        lemma_weight_sum_le(entries.drop_first(), j - 1);
        assert(entries.drop_first()[j - 1] == entries[j]);
    }
}

pub proof fn lemma_weight_sum_push(entries: Seq<ChoiceWeight>, e: ChoiceWeight)
    ensures
        weight_sum(entries.push(e)) == weight_sum(entries) + e.weight,
    decreases entries.len(),
{
    if entries.len() == 0 {
        assert(entries.push(e)[0] == e);
        assert(entries.push(e).drop_first() =~= Seq::<ChoiceWeight>::empty());
        assert(weight_sum(Seq::<ChoiceWeight>::empty()) == 0);
    } else {
        assert(entries.push(e)[0] == entries[0]);
        assert(entries.push(e).drop_first() =~= entries.drop_first().push(e));
        lemma_weight_sum_push(entries.drop_first(), e);
    }
}

pub proof fn lemma_weight_sum_update(entries: Seq<ChoiceWeight>, j: int, e: ChoiceWeight)
    requires
        0 <= j < entries.len(),
    ensures
        weight_sum(entries.update(j, e)) == weight_sum(entries) - entries[j].weight + e.weight,
    decreases entries.len(),
{
    if j == 0 {
        assert(entries.update(0, e).drop_first() =~= entries.drop_first());
    } else {
        assert(entries.update(j, e).drop_first() =~= entries.drop_first().update(j - 1, e));
        assert(entries.drop_first()[j - 1] == entries[j]);
        lemma_weight_sum_update(entries.drop_first(), j - 1, e);
    }
}

pub proof fn lemma_weight_sum_prefix_le(entries: Seq<ChoiceWeight>, i: int)
    requires
        0 <= i <= entries.len(),
    ensures
        weight_sum(entries.take(i)) <= weight_sum(entries),
    decreases entries.len() - i,
{
    if i < entries.len() {
        assert(entries.take(i + 1) =~= entries.take(i).push(entries[i]));
        lemma_weight_sum_push(entries.take(i), entries[i]);
        lemma_weight_sum_prefix_le(entries, i + 1);
    } else {
        assert(entries.take(i) =~= entries);
    }
}

/// The entries of a bucket after observing `suffix` once more: the existing
/// entry's weight grows by one, or a fresh entry of weight one is appended.
pub open spec fn bump_entries(entries: Seq<ChoiceWeight>, suffix: WordId) -> Seq<ChoiceWeight> {
    match entry_index(entries, suffix) {
        Some(j) => entries.update(
            j,
            ChoiceWeight { item: suffix, weight: (entries[j].weight + 1) as u32 },
        ),
        None => entries.push(ChoiceWeight { item: suffix, weight: 1 }),
    }
}

/// The transition table after observing `suffix` following `prefix` once
/// more. A bucket whose cached total has reached the top of its type is
/// left as it is, so that weights and totals never wrap.
pub open spec fn train_spec(edges: Seq<EdgeV>, prefix: State, suffix: WordId) -> Seq<EdgeV> {
    match edge_index(edges, prefix) {
        Some(i) => if edges[i].total == u32::MAX {
            edges
        } else {
            edges.update(
                i,
                EdgeV {
                    key: prefix,
                    entries: bump_entries(edges[i].entries, suffix),
                    total: (edges[i].total + 1) as u32,
                },
            )
        },
        None => edges.push(
            EdgeV { key: prefix, entries: seq![ChoiceWeight { item: suffix, weight: 1 }], total: 1 },
        ),
    }
}

/// The transition table after pruning: in the begin-state bucket, the entry
/// for identifier 1 (if any) is zeroed and the cached total drops by the
/// zeroed amount; nothing is removed and no other row changes.
pub open spec fn clear_spec(edges: Seq<EdgeV>) -> Seq<EdgeV> {
    match edge_index(edges, begin_state()) {
        None => edges,
        Some(i) => match entry_index(edges[i].entries, WordId(1)) {
            None => edges,
            Some(j) => edges.update(
                i,
                EdgeV {
                    key: edges[i].key,
                    entries: edges[i].entries.update(
                        j,
                        ChoiceWeight { item: WordId(1), weight: 0 },
                    ),
                    total: (edges[i].total - edges[i].entries[j].weight) as u32,
                },
            ),
        },
    }
}

impl Chain {
    /// Shorthand for well-formedness of the model of this chain.
    pub open spec fn wf(&self) -> bool {
        self@.wf()
    }

    /// A chain that knows only the sentinel empty word and no transitions.
    pub fn new() -> (c: Chain)
        ensures
            c@.words =~= seq![Seq::<char>::empty()],
            c@.edges =~= Seq::<EdgeV>::empty(),
            c.wf(),
    {
        let mut words: Vec<String> = Vec::new();
        words.push(String::new());
        let c = Chain { words, graph: Vec::new() };
        proof {
            assert(c@.words =~= seq![Seq::<char>::empty()]);
            assert(c@.edges =~= Seq::<EdgeV>::empty());
        }
        c
    }

    /// The sentinel context.
    pub fn begin(&self) -> (s: State)
        ensures
            s == begin_state(),
    {
        let begin = WordId(0);
        State(begin, begin, begin)
    }

    /// Looks the word up without mutating anything.
    pub fn find_word(&self, word: &str) -> (r: Option<WordId>)
        requires
            self.wf(),
        ensures
            match r {
                Some(id) => word_index(self@.words, word@) == Some(id.0 as int),
                None => word_index(self@.words, word@) is None,
            },
    {
        if is_quote_name(word) {
            return Some(WordId(0));
        }
        let n = self.words.len();
        let mut i: usize = 0;
        while i < n
            invariant
                self.wf(),
                n == self.words.len(),
                i <= n,
                word@ != quote_word(),
                forall|j: int| 0 <= j < i ==> self@.words[j] != word@,
            decreases n - i,
        {
            if str_eq(word, self.words[i].as_str()) {
                proof {
                    assert(self@.words[i as int] == self.words@[i as int]@);
                    lemma_first_word_index(self@.words, word@, 0);
                    assert(self@.words.len() == self.words@.len());
                    assert(i <= u32::MAX);
                }
                return Some(WordId(i as u32));
            }
            proof {
                assert(self@.words[i as int] == self.words@[i as int]@);
            }
            i += 1;
        }
        proof {
            lemma_first_word_index(self@.words, word@, 0);
        }
        None
    }

    /// The string interned under `word`, if the identifier is in range.
    pub fn get_name(&self, word: WordId) -> (r: Option<&str>)
        ensures
            match r {
                Some(s) => word.0 < self@.words.len() && s@ == self@.words[word.0 as int],
                None => word.0 >= self@.words.len(),
            },
    {
        if (word.0 as usize) < self.words.len() {
            Some(self.words[word.0 as usize].as_str())
        } else {
            None
        }
    }

    /// Interns `word`: returns its existing identifier unchanged, or appends
    /// it to the vocabulary under the next identifier. Idempotent: a word
    /// that is already known leaves the chain untouched.
    pub fn push_word(&mut self, word: &str) -> (id: WordId)
        requires
            old(self).wf(),
            word_index(old(self)@.words, word@) is Some || old(self)@.words.len() < u32::MAX,
        ensures
            final(self)@.words == intern_words(old(self)@.words, word@),
            final(self)@.edges == old(self)@.edges,
            word_index(final(self)@.words, word@) == Some(id.0 as int),
            final(self).wf(),
            word_index(old(self)@.words, word@) is Some ==> *final(self) == *old(self),
    {
        if let Some(id) = self.find_word(word) {
            return id;
        }
        let id = WordId(self.words.len() as u32);
        self.words.push(word.to_owned());
        proof {
            let prev = old(self)@.words;
            assert(self@.words =~= prev.push(word@));
            lemma_first_word_index(prev, word@, 0);
            assert(word@ != quote_word());
            lemma_first_word_index(self@.words, word@, 0);
            if first_word_index(self@.words, word@, 0) is None {
                assert(self@.words[prev.len() as int] == word@);
                assert(false);
            }
            assert(self@.edges =~= old(self)@.edges);
            assert forall|k: int|
                0 <= k < self@.edges.len() implies wf_bucket(
                (#[trigger] self@.edges[k]).entries,
                self@.edges[k].total,
                self@.words.len() as int,
            ) by {
                assert(wf_bucket(
                    old(self)@.edges[k].entries,
                    old(self)@.edges[k].total,
                    prev.len() as int,
                ));
            }
        }
        id
    }

    /// Records one more observation of `suffix` following the context
    /// `prefix`, creating the bucket and the entry as needed; the bucket's
    /// cached total always grows with the entry's weight.
    pub fn train_choice(&mut self, prefix: State, suffix: WordId)
        requires
            old(self).wf(),
            (suffix.0 as int) < old(self)@.words.len(),
        ensures
            final(self)@.words == old(self)@.words,
            final(self)@.edges == train_spec(old(self)@.edges, prefix, suffix),
            final(self).wf(),
    {
        let n = self.graph.len();
        let mut i: usize = 0;
        while i < n
            invariant
                self.wf(),
                self@ == old(self)@,
                n == self.graph.len(),
                i <= n,
                (suffix.0 as int) < old(self)@.words.len(),
                forall|k: int| 0 <= k < i ==> (#[trigger] self@.edges[k]).key != prefix,
            decreases n - i,
        {
            if self.graph[i].key == prefix {
                proof {
                    assert(old(self)@.edges[i as int].key == prefix);
                    lemma_edge_index_is(old(self)@.edges, prefix, i as int);
                }
                if self.graph[i].bucket.total == u32::MAX {
                    return ;
                }
                let ghost entries0 = old(self)@.edges[i as int].entries;
                let ghost total0 = old(self)@.edges[i as int].total;
                proof {
                    assert(wf_bucket(entries0, total0, old(self)@.words.len() as int));
                }
                let m = self.graph[i].bucket.choices.len();
                let mut j: usize = 0;
                while j < m
                    invariant
                        old(self)@.wf(),
                        self@ == old(self)@,
                        0 <= i < self.graph.len(),
                        self.graph[i as int].key == prefix,
                        edge_index(old(self)@.edges, prefix) == Some(i as int),
                        m == self.graph[i as int].bucket.choices.len(),
                        entries0 == old(self)@.edges[i as int].entries,
                        total0 == old(self)@.edges[i as int].total,
                        total0 < u32::MAX,
                        wf_bucket(entries0, total0, old(self)@.words.len() as int),
                        (suffix.0 as int) < old(self)@.words.len(),
                        j <= m,
                        forall|k: int| 0 <= k < j ==> (#[trigger] entries0[k]).item != suffix,
                    decreases m - j,
                {
                    if self.graph[i].bucket.choices[j].item == suffix {
                        proof {
                            assert(entries0[j as int].item == suffix);
                            lemma_entry_index_is(entries0, suffix, j as int);
                            lemma_weight_sum_le(entries0, j as int);
                        }
                        let w = self.graph[i].bucket.choices[j].weight;
                        let t = self.graph[i].bucket.total;
                        self.graph[i].bucket.choices[j] = ChoiceWeight {
                            item: suffix,
                            weight: w + 1,
                        };
                        self.graph[i].bucket.total = t + 1;
                        proof {
                            let bumped = EdgeV {
                                key: prefix,
                                entries: bump_entries(entries0, suffix),
                                total: (total0 + 1) as u32,
                            };
                            assert(self@.edges =~= old(self)@.edges.update(i as int, bumped));
                            assert(self@.edges == train_spec(old(self)@.edges, prefix, suffix));
                            lemma_weight_sum_update(
                                entries0,
                                j as int,
                                ChoiceWeight { item: suffix, weight: (w + 1) as u32 },
                            );
                            assert(self.wf());
                        }
                        return ;
                    }
                    j += 1;
                }
                proof {
                    lemma_first_entry_index(entries0, suffix, 0);
                    assert(entry_index(entries0, suffix) is None);
                }
                let t = self.graph[i].bucket.total;
                self.graph[i].bucket.choices.push(ChoiceWeight { item: suffix, weight: 1 });
                self.graph[i].bucket.total = t + 1;
                proof {
                    let bumped = EdgeV {
                        key: prefix,
                        entries: bump_entries(entries0, suffix),
                        total: (total0 + 1) as u32,
                    };
                    assert(self@.edges =~= old(self)@.edges.update(i as int, bumped));
                    assert(self@.edges == train_spec(old(self)@.edges, prefix, suffix));
                    lemma_weight_sum_push(entries0, ChoiceWeight { item: suffix, weight: 1 });
                    assert(self.wf());
                }
                return ;
            }
            i += 1;
        }
        proof {
            lemma_first_edge_index(old(self)@.edges, prefix, 0);
            assert(edge_index(old(self)@.edges, prefix) is None);
        }
        let mut fresh: Vec<ChoiceWeight> = Vec::new();
        fresh.push(ChoiceWeight { item: suffix, weight: 1 });
        self.graph.push(Edge { key: prefix, bucket: Choices { choices: fresh, total: 1 } });
        proof {
            let row = EdgeV {
                key: prefix,
                entries: seq![ChoiceWeight { item: suffix, weight: 1 }],
                total: 1u32,
            };
            assert(self@.edges =~= old(self)@.edges.push(row));
            assert(self@.edges == train_spec(old(self)@.edges, prefix, suffix));
            assert(row.entries.drop_first() =~= Seq::<ChoiceWeight>::empty());
            assert(weight_sum(Seq::<ChoiceWeight>::empty()) == 0);
            assert(row.entries[0] == ChoiceWeight { item: suffix, weight: 1u32 });
            assert(weight_sum(row.entries) == 1);
            assert(self.wf());
        }
    }

    /// Pruning: zeroes the weight that the begin-state bucket records for
    /// identifier 1 and subtracts that amount from the bucket's total,
    /// keeping the table's shape stable. A second call subtracts nothing.
    pub fn clear_empty(&mut self)
        requires
            old(self).wf(),
        ensures
            final(self)@.words == old(self)@.words,
            final(self)@.edges == clear_spec(old(self)@.edges),
            final(self).wf(),
    {
        let n = self.graph.len();
        let begin = self.begin();
        let mut i: usize = 0;
        while i < n
            invariant
                self.wf(),
                self@ == old(self)@,
                begin == begin_state(),
                n == self.graph.len(),
                i <= n,
                forall|k: int| 0 <= k < i ==> (#[trigger] self@.edges[k]).key != begin_state(),
            decreases n - i,
        {
            if self.graph[i].key == begin {
                proof {
                    assert(old(self)@.edges[i as int].key == begin_state());
                    lemma_edge_index_is(old(self)@.edges, begin_state(), i as int);
                }
                let ghost entries0 = old(self)@.edges[i as int].entries;
                let ghost total0 = old(self)@.edges[i as int].total;
                proof {
                    assert(wf_bucket(entries0, total0, old(self)@.words.len() as int));
                }
                let m = self.graph[i].bucket.choices.len();
                let mut j: usize = 0;
                while j < m
                    invariant
                        old(self)@.wf(),
                        self@ == old(self)@,
                        0 <= i < self.graph.len(),
                        edge_index(old(self)@.edges, begin_state()) == Some(i as int),
                        m == self.graph[i as int].bucket.choices.len(),
                        entries0 == old(self)@.edges[i as int].entries,
                        total0 == old(self)@.edges[i as int].total,
                        wf_bucket(entries0, total0, old(self)@.words.len() as int),
                        j <= m,
                        forall|k: int| 0 <= k < j ==> (#[trigger] entries0[k]).item != WordId(1),
                    decreases m - j,
                {
                    if self.graph[i].bucket.choices[j].item == WordId(1) {
                        proof {
                            assert(entries0[j as int].item == WordId(1));
                            lemma_entry_index_is(entries0, WordId(1), j as int);
                            lemma_weight_sum_le(entries0, j as int);
                        }
                        let w = self.graph[i].bucket.choices[j].weight;
                        let t = self.graph[i].bucket.total;
                        self.graph[i].bucket.choices[j] = ChoiceWeight {
                            item: WordId(1),
                            weight: 0,
                        };
                        self.graph[i].bucket.total = t - w;
                        proof {
                            assert(self@.edges =~= clear_spec(old(self)@.edges));
                            lemma_weight_sum_update(
                                entries0,
                                j as int,
                                ChoiceWeight { item: WordId(1), weight: 0 },
                            );
                            assert(self.wf());
                        }
                        return ;
                    }
                    j += 1;
                }
                proof {
                    lemma_first_entry_index(entries0, WordId(1), 0);
                    assert(entry_index(entries0, WordId(1)) is None);
                }
                return ;
            }
            i += 1;
        }
        proof {
            lemma_first_edge_index(old(self)@.edges, begin_state(), 0);
            assert(edge_index(old(self)@.edges, begin_state()) is None);
        }
    }

    /// The position of the transition-table row for `key`, if any.
    fn edge_position(&self, key: State) -> (r: Option<usize>)
        ensures
            match r {
                Some(i) => i < self.graph@.len() && edge_index(self@.edges, key) == Some(i as int),
                None => edge_index(self@.edges, key) is None,
            },
    {
        let n = self.graph.len();
        let mut i: usize = 0;
        while i < n
            invariant
                n == self.graph.len(),
                i <= n,
                forall|k: int| 0 <= k < i ==> (#[trigger] self@.edges[k]).key != key,
            decreases n - i,
        {
            if self.graph[i].key == key {
                proof {
                    assert(self@.edges[i as int].key == key);
                    lemma_edge_index_is(self@.edges, key, i as int);
                }
                return Some(i);
            }
            proof {
                assert(self@.edges[i as int].key == self.graph@[i as int].key);
            }
            i += 1;
        }
        proof {
            lemma_first_edge_index(self@.edges, key, 0);
        }
        None
    }

    /// One step of the generation walk: samples a successor of the current
    /// context in proportion to its recorded weight, slides the context by
    /// it and returns its word; halts exactly when the context has none.
    pub fn next_word(&self, state: &mut State) -> (r: Option<String>)
        requires
            self.wf(),
        ensures
            next_word_post(self@, *old(state), *final(state), view_of_word(r)),
    {
        let i = match self.edge_position(*state) {
            Some(i) => i,
            None => {
                return None;
            },
        };
        let len = self.graph[i].bucket.choices.len();
        let total = self.graph[i].bucket.total;
        if len == 0 || total == 0 {
            return None;
        }
        proof {
            assert(wf_bucket(
                self@.edges[i as int].entries,
                self@.edges[i as int].total,
                self@.words.len() as int,
            ));
        }
        let selector = random_below(total);
        let idx = self.graph[i].bucket.select(selector);
        let chosen = self.graph[i].bucket.choices[idx].item;
        let ghost pre_state = *state;
        state.push(chosen);
        proof {
            assert(self@.edges[i as int].entries[idx as int].item.0 < self@.words.len());
            assert(self@.words[chosen.0 as int] == self.words@[chosen.0 as int]@);
        }
        let name = self.words[chosen.0 as usize].clone();
        proof {
            let e = self@.edges[i as int];
            assert(0 <= idx < e.entries.len() && e.entries[idx as int].weight > 0
                && e.entries[idx as int].item.0 < self@.words.len() && view_of_word(
                Some(name),
            ) == Some(self@.words[e.entries[idx as int].item.0 as int]) && *final(state)
                == pre_state.slide(e.entries[idx as int].item));
        }
        Some(name)
    }

    /// Generates up to `max_length` words by repeated weighted sampling from
    /// the sentinel context: the output is a walk — every word a recorded,
    /// positive-weight successor of the running context — stopped early
    /// exactly at a context with no successors, so it is empty when the
    /// sentinel context has none. Every emitted word, the last included, is
    /// followed by one space: the engine's output format keeps the trailing
    /// space.
    pub fn generate_sequence(&self, max_length: usize) -> (r: String)
        requires
            self.wf(),
        ensures
            exists|ws: Seq<Seq<char>>, end: State|
                #![trigger walk_trace(self@, begin_state(), ws, end)]
                {
                    &&& ws.len() <= max_length
                    &&& r@ == join_spaced(ws)
                    &&& walk_trace(self@, begin_state(), ws, end)
                    &&& ws.len() == max_length || no_successors(self@, end)
                },
            no_successors(self@, begin_state()) ==> r@ == Seq::<char>::empty(),
    {
        let mut sequence = String::new();
        let ghost mut ws: Seq<Seq<char>> = Seq::empty();
        let mut state = self.begin();
        let mut count: usize = 0;
        let mut halted = false;
        while !halted && count < max_length
            invariant
                self.wf(),
                count <= max_length,
                ws.len() == count,
                sequence@ == join_spaced(ws),
                walk_trace(self@, begin_state(), ws, state),
                halted ==> no_successors(self@, state),
                no_successors(self@, begin_state()) ==> ws == Seq::<Seq<char>>::empty(),
                ws.len() == 0 ==> state == begin_state(),
            decreases max_length - count, (if halted { 0int } else { 1 }),
        {
            let ghost pre_state = state;
            match self.next_word(&mut state) {
                Some(word) => {
                    proof {
                        lemma_walk_trace_push(
                            self@,
                            begin_state(),
                            ws,
                            pre_state,
                            state,
                            word@,
                        );
                        lemma_join_spaced_push(ws, word@);
                        reveal_strlit(" ");
                        assert(" "@ =~= seq![' ']);
                    }
                    sequence.append(word.as_str());
                    sequence.append(" ");
                    proof {
                        ws = ws.push(word@);
                    }
                    count += 1;
                },
                None => {
                    halted = true;
                },
            }
        }
        proof {
            assert(ws.len() <= max_length && sequence@ == join_spaced(ws) && walk_trace(
                self@,
                begin_state(),
                ws,
                state,
            ) && (ws.len() == max_length || no_successors(self@, state)));
        }
        sequence
    }

    /// A lazy walk over this chain, starting at the sentinel context.
    pub fn iter(&self) -> (it: GeneratingIterator<'_>)
        ensures
            it.state == begin_state(),
            it.chain == self,
    {
        GeneratingIterator { state: self.begin(), chain: self }
    }

    /// Resolves three word strings to a context and returns its bucket.
    /// `None` exactly when some word is unknown or the context was never
    /// observed; which of the three is unknown can be read off
    /// [`Chain::find_word`].
    pub fn lookup_choices<'a>(&'a self, prefix: ChoiceLookup<'_>) -> (r: Option<&'a Choices>)
        requires
            self.wf(),
        ensures
            match r {
                Some(ch) => exists|k: int|
                    {
                        &&& lookup_spec(self@, prefix.0@, prefix.1@, prefix.2@) == Some(k)
                        &&& 0 <= k < self@.edges.len()
                        &&& ch.choices@ == (#[trigger] self@.edges[k]).entries
                        &&& ch.total == self@.edges[k].total
                    },
                None => lookup_spec(self@, prefix.0@, prefix.1@, prefix.2@) is None,
            },
    {
        let w0 = self.find_word(prefix.0);
        let w1 = self.find_word(prefix.1);
        let w2 = self.find_word(prefix.2);
        match (w0, w1, w2) {
            (Some(id0), Some(id1), Some(id2)) => {
                proof {
                    assert(WordId((id0.0 as int) as u32) == id0);
                    assert(WordId((id1.0 as int) as u32) == id1);
                    assert(WordId((id2.0 as int) as u32) == id2);
                }
                match self.edge_position(State(id0, id1, id2)) {
                    Some(i) => {
                        proof {
                            assert(lookup_spec(self@, prefix.0@, prefix.1@, prefix.2@) == Some(
                                i as int,
                            ));
                            assert(self@.edges[i as int].entries == self.graph@[
                                i as int
                            ].bucket.choices@);
                        }
                        Some(&self.graph[i].bucket)
                    },
                    None => None,
                }
            },
            _ => None,
        }
    }

    /// Decides well-formedness, so that a chain rebuilt from untrusted
    /// bytes can be accepted or rejected exactly.
    pub fn check_wf(&self) -> (r: bool)
        ensures
            r == self@.wf(),
    {
        let nw = self.words.len();
        if nw < 1 || nw > u32::MAX as usize {
            return false;
        }
        if self.words[0].as_str().unicode_len() != 0 {
            proof {
                assert(self@.words[0] == self.words@[0]@);
            }
            return false;
        }
        proof {
            assert(self@.words[0] =~= Seq::<char>::empty());
        }
        let mut i: usize = 0;
        while i < nw
            invariant
                nw == self.words.len(),
                i <= nw,
                forall|k: int| 1 <= k < i ==> self@.words[k] != quote_word(),
                forall|p: int, q: int|
                    0 <= p < q < nw && p < i ==> self@.words[p] != self@.words[q],
            decreases nw - i,
        {
            proof {
                assert(self@.words[i as int] == self.words@[i as int]@);
            }
            if i >= 1 && is_quote_name(self.words[i].as_str()) {
                return false;
            }
            let mut j = i + 1;
            while j < nw
                invariant
                    nw == self.words.len(),
                    i < j <= nw,
                    forall|q: int| i < q < j ==> self@.words[i as int] != self@.words[q],
                decreases nw - j,
            {
                proof {
                    assert(self@.words[i as int] == self.words@[i as int]@);
                    assert(self@.words[j as int] == self.words@[j as int]@);
                }
                if str_eq(self.words[i].as_str(), self.words[j].as_str()) {
                    return false;
                }
                j += 1;
            }
            i += 1;
        }
        let ne = self.graph.len();
        let mut i: usize = 0;
        while i < ne
            invariant
                ne == self.graph.len(),
                i <= ne,
                forall|p: int, q: int|
                    0 <= p < q < ne && p < i ==> (#[trigger] self@.edges[p]).key
                        != (#[trigger] self@.edges[q]).key,
            decreases ne - i,
        {
            let mut j = i + 1;
            while j < ne
                invariant
                    ne == self.graph.len(),
                    i < j <= ne,
                    forall|q: int|
                        i < q < j ==> self@.edges[i as int].key != (#[trigger] self@.edges[q]).key,
                decreases ne - j,
            {
                proof {
                    assert(self@.edges[i as int].key == self.graph@[i as int].key);
                    assert(self@.edges[j as int].key == self.graph@[j as int].key);
                }
                if self.graph[i].key == self.graph[j].key {
                    return false;
                }
                j += 1;
            }
            i += 1;
        }
        let mut i: usize = 0;
        while i < ne
            invariant
                ne == self.graph.len(),
                nw == self.words.len(),
                i <= ne,
                forall|k: int|
                    0 <= k < i ==> wf_bucket(
                        (#[trigger] self@.edges[k]).entries,
                        self@.edges[k].total,
                        self@.words.len() as int,
                    ),
            decreases ne - i,
        {
            let ghost entries = self@.edges[i as int].entries;
            let m = self.graph[i].bucket.choices.len();
            let mut j: usize = 0;
            let mut sum: u64 = 0;
            proof {
                assert(entries.take(0) =~= Seq::<ChoiceWeight>::empty());
            }
            while j < m
                invariant
                    ne == self.graph.len(),
                    nw == self.words.len(),
                    0 <= i < ne,
                    m == self.graph[i as int].bucket.choices.len(),
                    entries == self@.edges[i as int].entries,
                    m == entries.len(),
                    j <= m,
                    sum == weight_sum(entries.take(j as int)),
                    sum <= u32::MAX,
                    forall|k: int| 0 <= k < j ==> ((#[trigger] entries[k]).item.0 as int) < nw,
                    forall|p: int, q: int|
                        0 <= p < q < m && p < j ==> entries[p].item != entries[q].item,
                decreases m - j,
            {
                let e = self.graph[i].bucket.choices[j];
                proof {
                    assert(entries[j as int] == e);
                }
                if e.item.0 as usize >= nw {
                    proof {
                        assert(!wf_bucket(entries, self@.edges[i as int].total, nw as int));
                    }
                    return false;
                }
                let mut q = j + 1;
                while q < m
                    invariant
                        ne == self.graph.len(),
                        0 <= i < ne,
                        m == self.graph[i as int].bucket.choices.len(),
                        entries == self@.edges[i as int].entries,
                        e == entries[j as int],
                        j < q <= m,
                        forall|k: int| j < k < q ==> entries[j as int].item != entries[k].item,
                    decreases m - q,
                {
                    proof {
                        assert(entries[q as int] == self.graph@[i as int].bucket.choices@[
                            q as int
                        ]);
                    }
                    if e.item == self.graph[i].bucket.choices[q].item {
                        proof {
                            assert(!wf_bucket(entries, self@.edges[i as int].total, nw as int));
                        }
                        return false;
                    }
                    q += 1;
                }
                proof {
                    assert(entries.take(j + 1) =~= entries.take(j as int).push(entries[j as int]));
                    lemma_weight_sum_push(entries.take(j as int), entries[j as int]);
                }
                let next = sum + (e.weight as u64);
                if next > u32::MAX as u64 {
                    proof {
                        lemma_weight_sum_prefix_le(entries, j + 1);
                        assert(weight_sum(entries) > u32::MAX);
                        assert(!wf_bucket(entries, self@.edges[i as int].total, nw as int));
                    }
                    return false;
                }
                sum = next;
                j += 1;
            }
            proof {
                assert(entries.take(m as int) =~= entries);
            }
            if sum != self.graph[i].bucket.total as u64 {
                proof {
                    assert(!wf_bucket(entries, self@.edges[i as int].total, nw as int));
                }
                return false;
            }
            proof {
                assert(wf_bucket(entries, self@.edges[i as int].total, self@.words.len() as int));
            }
            i += 1;
        }
        proof {
            assert(self@.words.len() == nw && self@.edges.len() == ne);
        }
        true
    }

    /// The number of words the vocabulary holds, the sentinel included.
    pub fn word_count(&self) -> (n: usize)
        ensures
            n == self@.words.len(),
    {
        self.words.len()
    }

    /// The number of distinct contexts the transition table knows.
    pub fn context_count(&self) -> (n: usize)
        ensures
            n == self@.edges.len(),
    {
        self.graph.len()
    }
}

/// Three word strings naming a context, as typed at a command surface.
pub type ChoiceLookup<'a> = (&'a str, &'a str, &'a str);

/// The transition-table row that three word strings name: all three must be
/// known words, and the context they form must have been observed.
pub open spec fn lookup_spec(c: ChainV, w0: Seq<char>, w1: Seq<char>, w2: Seq<char>) -> Option<
    int,
> {
    match (word_index(c.words, w0), word_index(c.words, w1), word_index(c.words, w2)) {
        (Some(i0), Some(i1), Some(i2)) => edge_index(
            c.edges,
            State(WordId(i0 as u32), WordId(i1 as u32), WordId(i2 as u32)),
        ),
        _ => None,
    }
}

/// A lazy, finite generation walk: one sliding context over one chain.
pub struct GeneratingIterator<'a> {
    pub state: State,
    pub chain: &'a Chain,
}

impl<'a> GeneratingIterator<'a> {
    /// Emits the next word of the walk, or `None` when the walk is over.
    pub fn next(&mut self) -> (r: Option<String>)
        requires
            old(self).chain.wf(),
        ensures
            final(self).chain == old(self).chain,
            next_word_post(
                old(self).chain@,
                old(self).state,
                final(self).state,
                view_of_word(r),
            ),
    {
        let chain = self.chain;
        chain.next_word(&mut self.state)
    }
}

impl Default for Chain {
    /// The same chain as [`Chain::new`].
    fn default() -> (c: Chain)
        ensures
            c@.words =~= seq![Seq::<char>::empty()],
            c@.edges =~= Seq::<EdgeV>::empty(),
            c.wf(),
    {
        Chain::new()
    }
}

/// The entry that weighted sampling picks for a drawn `sel`: walking the
/// entries in order, the first whose weight exceeds what is left of `sel`
/// after subtracting the weights before it.
pub open spec fn pick_index(entries: Seq<ChoiceWeight>, sel: int) -> int
    decreases entries.len(),
{
    if entries.len() == 0 {
        0
    } else if sel < entries[0].weight {
        0
    } else {
        1 + pick_index(entries.drop_first(), sel - entries[0].weight)
    }
}

/// Sampling bounds: a draw below the weight sum always lands on an entry of
/// the bucket, and on one whose weight is nonzero.
pub proof fn lemma_pick_index(entries: Seq<ChoiceWeight>, sel: int)
    requires
        0 <= sel < weight_sum(entries),
    ensures
        0 <= pick_index(entries, sel) < entries.len(),
        entries[pick_index(entries, sel)].weight > 0,
    decreases entries.len(),
{
    if entries.len() == 0 {
    } else if sel < entries[0].weight {
    } else {
        lemma_pick_index(entries.drop_first(), sel - entries[0].weight);
        assert(entries.drop_first()[pick_index(entries, sel) - 1] == entries[pick_index(
            entries,
            sel,
        )]);
    }
}

/// Relies on rand: `random_range` over `0..bound` on the thread-local
/// generator returns a value below `bound`; the draw is uniform, which no
/// contract here states, and two calls may differ.
#[verifier::external_body]
fn random_below(bound: u32) -> (r: u32)
    requires
        bound > 0,
    ensures
        r < bound,
{
    rand::rng().random_range(0..bound)
}

impl Choices {
    /// Resolves a drawn selector to the entry that weighted sampling picks.
    /// Deterministic: the caller supplies the draw.
    pub fn select(&self, selector: u32) -> (idx: usize)
        requires
            (selector as int) < weight_sum(self.choices@),
        ensures
            idx < self.choices@.len(),
            idx as int == pick_index(self.choices@, selector as int),
            self.choices@[idx as int].weight > 0,
    {
        let n = self.choices.len();
        let mut sel = selector;
        let mut i: usize = 0;
        proof {
            assert(self.choices@.skip(0) =~= self.choices@);
        }
        while i < n
            invariant
                n == self.choices@.len(),
            i <= n,
                (sel as int) < weight_sum(self.choices@.skip(i as int)),
                pick_index(self.choices@, selector as int) == i + pick_index(
                    self.choices@.skip(i as int),
                    sel as int,
                ),
            decreases n - i,
        {
            let w = self.choices[i].weight;
            proof {
                assert(self.choices@.skip(i as int)[0] == self.choices@[i as int]);
                lemma_weight_sum_nonneg(self.choices@.skip(i as int).drop_first());
            }
            if sel < w {
                return i;
            }
            proof {
                assert(self.choices@.skip(i as int).drop_first() =~= self.choices@.skip(
                    i as int + 1,
                ));
            }
            sel = sel - w;
            i += 1;
        }
        proof {
            assert(self.choices@.skip(n as int) =~= Seq::<ChoiceWeight>::empty());
            assert(false);
        }
        0
    }
}

/// The view of an optionally returned word.
pub open spec fn view_of_word(r: Option<String>) -> Option<Seq<char>> {
    match r {
        Some(s) => Some(s@),
        None => None,
    }
}

/// A context from which a walk cannot continue: no bucket, an empty bucket,
/// or a bucket whose weights have all been zeroed.
pub open spec fn no_successors(c: ChainV, st: State) -> bool {
    match edge_index(c.edges, st) {
        None => true,
        Some(k) => c.edges[k].entries.len() == 0 || c.edges[k].total == 0,
    }
}

/// What one step of the generation walk does: either the walk halts with
/// the state untouched, exactly when the context has no successors, or some
/// recorded successor of nonzero weight is emitted by name and the state
/// slides by its identifier.
pub open spec fn next_word_post(c: ChainV, pre: State, post: State, r: Option<Seq<char>>) -> bool {
    match edge_index(c.edges, pre) {
        None => r is None && post == pre,
        Some(k) => if c.edges[k].entries.len() == 0 || c.edges[k].total == 0 {
            r is None && post == pre
        } else {
            exists|j: int|
                #![trigger c.edges[k].entries[j]]
                {
                    let e = c.edges[k];
                    &&& 0 <= j < e.entries.len()
                    &&& e.entries[j].weight > 0
                    &&& e.entries[j].item.0 < c.words.len()
                    &&& r == Some(c.words[e.entries[j].item.0 as int])
                    &&& post == pre.slide(e.entries[j].item)
                }
        },
    }
}

/// `ws` is a trace of the generation walk over `c`: starting from `st`,
/// each word in turn is emitted by one step as [`next_word_post`] allows,
/// and the walk's context ends at `end`.
pub open spec fn walk_trace(c: ChainV, st: State, ws: Seq<Seq<char>>, end: State) -> bool
    decreases ws.len(),
{
    if ws.len() == 0 {
        end == st
    } else {
        exists|mid: State|
            #![trigger next_word_post(c, st, mid, Some(ws[0]))]
            next_word_post(c, st, mid, Some(ws[0])) && walk_trace(c, mid, ws.drop_first(), end)
    }
}

/// A trace extends by one more emitted word.
pub proof fn lemma_walk_trace_push(
    c: ChainV,
    st: State,
    ws: Seq<Seq<char>>,
    end: State,
    next: State,
    w: Seq<char>,
)
    requires
        walk_trace(c, st, ws, end),
        next_word_post(c, end, next, Some(w)),
    ensures
        walk_trace(c, st, ws.push(w), next),
    decreases ws.len(),
{
    if ws.len() == 0 {
        assert(ws.push(w)[0] == w);
        assert(ws.push(w).drop_first() =~= Seq::<Seq<char>>::empty());
        assert(next_word_post(c, st, next, Some(ws.push(w)[0])) && walk_trace(
            c,
            next,
            ws.push(w).drop_first(),
            next,
        ));
    } else {
        let mid = choose|m: State|
            #![trigger next_word_post(c, st, m, Some(ws[0]))]
            next_word_post(c, st, m, Some(ws[0])) && walk_trace(c, m, ws.drop_first(), end);
        lemma_walk_trace_push(c, mid, ws.drop_first(), end, next, w);
        assert(ws.push(w)[0] == ws[0]);
        assert(ws.push(w).drop_first() =~= ws.drop_first().push(w));
        assert(next_word_post(c, st, mid, Some(ws.push(w)[0])) && walk_trace(
            c,
            mid,
            ws.push(w).drop_first(),
            next,
        ));
    }
}

/// The words of `ws` in order, each followed by one space.
pub open spec fn join_spaced(ws: Seq<Seq<char>>) -> Seq<char>
    decreases ws.len(),
{
    if ws.len() == 0 {
        Seq::empty()
    } else {
        ws[0] + seq![' '] + join_spaced(ws.drop_first())
    }
}

pub proof fn lemma_join_spaced_push(ws: Seq<Seq<char>>, w: Seq<char>)
    ensures
        join_spaced(ws.push(w)) == join_spaced(ws) + w + seq![' '],
    decreases ws.len(),
{
    if ws.len() == 0 {
        assert(ws.push(w)[0] == w);
        assert(ws.push(w).drop_first() =~= Seq::<Seq<char>>::empty());
        assert(join_spaced(Seq::<Seq<char>>::empty()) =~= Seq::<char>::empty());
        assert(join_spaced(ws.push(w)) =~= w + seq![' ']);
        assert(join_spaced(ws) + w + seq![' '] =~= w + seq![' ']);
    } else {
        assert(ws.push(w)[0] == ws[0]);
        assert(ws.push(w).drop_first() =~= ws.drop_first().push(w));
        lemma_join_spaced_push(ws.drop_first(), w);
        assert(join_spaced(ws.push(w)) =~= join_spaced(ws) + w + seq![' ']);
    }
}

/// Idempotent interning: once a word has been interned, interning it again
/// finds it and leaves the vocabulary unchanged, and the identifier it was
/// assigned is stable.
pub proof fn lemma_intern_idempotent(words: Seq<Seq<char>>, w: Seq<char>)
    ensures
        word_index(intern_words(words, w), w) is Some,
        intern_words(intern_words(words, w), w) == intern_words(words, w),
        word_index(words, w) is Some ==> word_index(intern_words(words, w), w) == word_index(
            words,
            w,
        ),
{
    if w == quote_word() {
    } else {
        lemma_first_word_index(words, w, 0);
        if word_index(words, w) is None {
            let once = words.push(w);
            lemma_first_word_index(once, w, 0);
            if first_word_index(once, w, 0) is None {
                assert(once[words.len() as int] == w);
                assert(false);
            }
        }
    }
}

/// Weight conservation: in a well-formed chain, every bucket's cached total
/// is exactly the sum of the weights of its entries; training preserves
/// this because [`Chain::train_choice`] keeps the chain well formed.
pub proof fn lemma_weight_conservation(c: ChainV, i: int)
    requires
        c.wf(),
        0 <= i < c.edges.len(),
    ensures
        c.edges[i].total == weight_sum(c.edges[i].entries),
{
}

/// Pruning is idempotent: a second pruning pass finds the zeroed entry,
/// subtracts nothing, and leaves the table exactly as it was.
pub proof fn lemma_clear_idempotent(edges: Seq<EdgeV>)
    requires
        forall|i: int|
            0 <= i < edges.len() ==> weight_sum((#[trigger] edges[i]).entries) == edges[i].total,
    ensures
        clear_spec(clear_spec(edges)) == clear_spec(edges),
{
    let once = clear_spec(edges);
    match edge_index(edges, begin_state()) {
        None => {
            lemma_first_edge_index(edges, begin_state(), 0);
        },
        Some(i) => {
            lemma_first_edge_index(edges, begin_state(), 0);
            match entry_index(edges[i].entries, WordId(1)) {
                None => {
                },
                Some(j) => {
                    lemma_first_entry_index(edges[i].entries, WordId(1), 0);
                    let entries1 = edges[i].entries.update(
                        j,
                        ChoiceWeight { item: WordId(1), weight: 0 },
                    );
                    lemma_weight_sum_le(edges[i].entries, j);
                    lemma_first_edge_index(once, begin_state(), 0);
                    assert(once[i].key == begin_state());
                    assert(forall|k: int| 0 <= k < i ==> once[k] == edges[k]);
                    assert(edge_index(once, begin_state()) == Some(i));
                    lemma_first_entry_index(edges[i].entries, WordId(1), 0);
                    lemma_first_entry_index(entries1, WordId(1), 0);
                    assert(forall|k: int| 0 <= k < j ==> entries1[k] == edges[i].entries[k]);
                    assert(entries1[j].item == WordId(1));
                    assert(entry_index(entries1, WordId(1)) == Some(j));
                    assert(clear_spec(once) =~~= once);
                },
            }
        },
    }
}

} // verus!

