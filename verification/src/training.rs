//! Trainer strategies: procedures that turn raw text into training updates
//! on a chain. The single-utterance strategy starts every call from the
//! sentinel context; the cross-line bridging strategy also trains each line
//! as a continuation of the line before it.

use crate::chain::{
    begin_state, intern_words, interned_id, lemma_word_index_range, train_spec, word_index, Chain,
    ChainV, State, WordId,
};
use crate::words::{split_words, split_ws};
use vstd::prelude::*;

verus! {

/// One training step: intern the word, record it as a successor of the
/// cursor, and slide the cursor by its identifier.
pub open spec fn train_step(c: ChainV, st: State, w: Seq<char>) -> (ChainV, State) {
    let id = WordId(interned_id(c.words, w) as u32);
    (ChainV { words: intern_words(c.words, w), edges: train_spec(c.edges, st, id) }, st.slide(id))
}

/// Training a whole token sequence under one sliding cursor.
pub open spec fn train_seq(c: ChainV, st: State, ws: Seq<Seq<char>>) -> (ChainV, State)
    decreases ws.len(),
{
    if ws.len() == 0 {
        (c, st)
    } else {
        let stepped = train_step(c, st, ws[0]);
        train_seq(stepped.0, stepped.1, ws.drop_first())
    }
}

/// One bridged training step: the transition is recorded under the local
/// cursor and, where the two cursors differ, under the external cursor too;
/// both cursors slide.
pub open spec fn bridge_step(c: ChainV, local: State, ext: State, w: Seq<char>) -> (
    ChainV,
    State,
    State,
) {
    let id = WordId(interned_id(c.words, w) as u32);
    let once = train_spec(c.edges, local, id);
    let twice = if ext != local {
        train_spec(once, ext, id)
    } else {
        once
    };
    (
        ChainV { words: intern_words(c.words, w), edges: twice },
        local.slide(id),
        ext.slide(id),
    )
}

/// Bridged training of a whole token sequence under the two cursors.
pub open spec fn bridge_seq(c: ChainV, local: State, ext: State, ws: Seq<Seq<char>>) -> (
    ChainV,
    State,
    State,
)
    decreases ws.len(),
{
    if ws.len() == 0 {
        (c, local, ext)
    } else {
        let stepped = bridge_step(c, local, ext, ws[0]);
        bridge_seq(stepped.0, stepped.1, stepped.2, ws.drop_first())
    }
}

/// One line of bridged training: the local cursor starts fresh at the
/// sentinel context, the external cursor carries `ext` in from the line
/// before, and the cursor carried to the next line is the local cursor's
/// end — each line is trained once from scratch and once as a continuation
/// of the line immediately before it, never of anything older.
pub open spec fn bridge_line(c: ChainV, ext: State, ws: Seq<Seq<char>>) -> (ChainV, State) {
    let r = bridge_seq(c, begin_state(), ext, ws);
    (r.0, r.1)
}

/// Bridged training of a whole document, line by line.
pub open spec fn bridge_lines(c: ChainV, ext: State, lines: Seq<Seq<char>>) -> (ChainV, State)
    decreases lines.len(),
{
    if lines.len() == 0 {
        (c, ext)
    } else {
        let stepped = bridge_line(c, ext, split_ws(lines[0]));
        bridge_lines(stepped.0, stepped.1, lines.drop_first())
    }
}

/// How many words a document's lines hold in all.
pub open spec fn token_count(lines: Seq<Seq<char>>) -> nat
    decreases lines.len(),
{
    if lines.len() == 0 {
        0
    } else {
        split_ws(lines[0]).len() + token_count(lines.drop_first())
    }
}

/// Training grows the vocabulary by at most one word per token.
pub proof fn lemma_bridge_words_growth(c: ChainV, local: State, ext: State, ws: Seq<Seq<char>>)
    ensures
        bridge_seq(c, local, ext, ws).0.words.len() <= c.words.len() + ws.len(),
    decreases ws.len(),
{
    if ws.len() > 0 {
        let stepped = bridge_step(c, local, ext, ws[0]);
        lemma_bridge_words_growth(stepped.0, stepped.1, stepped.2, ws.drop_first());
    }
}

/// Something that can consume text and mutate a chain.
pub trait Trainer {
    /// What the strategy needs of the chain it is about to train.
    spec fn pre(&self, chain: Chain) -> bool;

    /// What training did to the chain.
    spec fn post(&self, pre_chain: Chain, post_chain: Chain) -> bool;

    fn train(&mut self, chain: &mut Chain)
        requires
            old(self).pre(*old(chain)),
        ensures
            old(self).post(*old(chain), *final(chain)),
    ;
}

/// The single-utterance strategy: trains one self-contained line, the
/// cursor starting fresh at the sentinel context.
pub struct StrTrainer<'a> {
    pub data: &'a str,
}

impl<'a> StrTrainer<'a> {
    pub fn new(data: &'a str) -> (t: Self)
        ensures
            t.data == data,
    {
        StrTrainer { data }
    }
}

impl<'a> Trainer for StrTrainer<'a> {
    open spec fn pre(&self, chain: Chain) -> bool {
        &&& chain.wf()
        &&& chain@.words.len() + split_ws(self.data@).len() <= u32::MAX
    }

    open spec fn post(&self, pre_chain: Chain, post_chain: Chain) -> bool {
        &&& post_chain@ == train_seq(pre_chain@, begin_state(), split_ws(self.data@)).0
        &&& post_chain.wf()
    }

    fn train(&mut self, chain: &mut Chain) {
        let ghost toks = split_ws(self.data@);
        let tokens = split_words(self.data);
        let mut state = chain.begin();
        let n = tokens.len();
        let mut k: usize = 0;
        proof {
            assert(toks.skip(0) =~= toks);
        }
        while k < n
            invariant
                chain.wf(),
                n == tokens.len(),
                k <= n,
                tokens@.map_values(|w: String| w@) == toks,
                chain@.words.len() + (n - k) <= u32::MAX,
                train_seq(old(chain)@, begin_state(), toks) == train_seq(
                    chain@,
                    state,
                    toks.skip(k as int),
                ),
            decreases n - k,
        {
            proof {
                assert(toks[k as int] == tokens@[k as int]@);
            }
            let id = chain.push_word(tokens[k].as_str());
            proof {
                lemma_word_index_range(chain@.words, toks[k as int]);
            }
            chain.train_choice(state, id);
            state.push(id);
            proof {
                assert(toks.skip(k as int).drop_first() =~= toks.skip(k + 1));
                assert(toks.skip(k as int)[0] == toks[k as int]);
            }
            k += 1;
        }
        proof {
            assert(toks.skip(n as int) =~= Seq::<Seq<char>>::empty());
        }
    }
}

/// One line of bridged training over `chain`, continuing from `cursor`:
/// trains the line both from the sentinel context and, where the cursors
/// differ, from the carried-in cursor, and returns the cursor to carry to
/// the next line.
pub fn train_line_bridged(chain: &mut Chain, cursor: State, data: &str) -> (end: State)
    requires
        old(chain).wf(),
        old(chain)@.words.len() + split_ws(data@).len() <= u32::MAX,
    ensures
        final(chain)@ == bridge_line(old(chain)@, cursor, split_ws(data@)).0,
        end == bridge_line(old(chain)@, cursor, split_ws(data@)).1,
        final(chain).wf(),
{
    let ghost toks = split_ws(data@);
    let tokens = split_words(data);
    let mut local = chain.begin();
    let mut ext = cursor;
    let n = tokens.len();
    let mut k: usize = 0;
    proof {
        assert(toks.skip(0) =~= toks);
    }
    while k < n
        invariant
            chain.wf(),
            n == tokens.len(),
            k <= n,
            tokens@.map_values(|w: String| w@) == toks,
            chain@.words.len() + (n - k) <= u32::MAX,
            bridge_seq(old(chain)@, begin_state(), cursor, toks) == bridge_seq(
                chain@,
                local,
                ext,
                toks.skip(k as int),
            ),
        decreases n - k,
    {
        proof {
            assert(toks[k as int] == tokens@[k as int]@);
        }
        let id = chain.push_word(tokens[k].as_str());
        proof {
            lemma_word_index_range(chain@.words, toks[k as int]);
        }
        chain.train_choice(local, id);
        if ext != local {
            chain.train_choice(ext, id);
        }
        local.push(id);
        ext.push(id);
        proof {
            assert(toks.skip(k as int).drop_first() =~= toks.skip(k + 1));
            assert(toks.skip(k as int)[0] == toks[k as int]);
        }
        k += 1;
    }
    proof {
        assert(toks.skip(n as int) =~= Seq::<Seq<char>>::empty());
    }
    local
}

/// The cross-line bridging strategy: holds the external cursor that carries
/// the tail of each line into the training of the next.
pub struct MultilineTrainer {
    pub state: State,
}

/// One line handed to a [`MultilineTrainer`], borrowing its cursor.
pub struct MultilineEntry<'a, 'b> {
    pub data: &'a str,
    pub state: &'b mut State,
}

impl MultilineTrainer {
    /// A bridging trainer whose cursor starts at the sentinel context.
    pub fn new(chain: &Chain) -> (t: Self)
        ensures
            t.state == begin_state(),
    {
        MultilineTrainer { state: chain.begin() }
    }

    /// Hands the next line over, lending the entry this trainer's cursor.
    pub fn next<'a, 'b>(&'b mut self, data: &'a str) -> (e: MultilineEntry<'a, 'b>)
        ensures
            e.data == data,
            *e.state == old(self).state,
            final(self).state == *final(e.state),
    {
        MultilineEntry { data, state: &mut self.state }
    }

    /// Trains one line under the bridging strategy and advances the cursor
    /// that the next line will continue from.
    pub fn train_line(&mut self, data: &str, chain: &mut Chain)
        requires
            old(chain).wf(),
            old(chain)@.words.len() + split_ws(data@).len() <= u32::MAX,
        ensures
            final(chain)@ == bridge_line(old(chain)@, old(self).state, split_ws(data@)).0,
            final(self).state == bridge_line(old(chain)@, old(self).state, split_ws(data@)).1,
            final(chain).wf(),
    {
        self.state = train_line_bridged(chain, self.state, data);
    }

    /// Trains a whole document, each line bridged to the one before it.
    pub fn train_lines(&mut self, lines: &Vec<String>, chain: &mut Chain)
        requires
            old(chain).wf(),
            old(chain)@.words.len() + token_count(lines@.map_values(|l: String| l@))
                <= u32::MAX,
        ensures
            ({
                let r = bridge_lines(
                    old(chain)@,
                    old(self).state,
                    lines@.map_values(|l: String| l@),
                );
                &&& final(chain)@ == r.0
                &&& final(self).state == r.1
                &&& final(chain).wf()
            }),
    {
        let ghost docs = lines@.map_values(|l: String| l@);
        let n = lines.len();
        let mut k: usize = 0;
        proof {
            assert(docs.skip(0) =~= docs);
        }
        while k < n
            invariant
                chain.wf(),
                n == lines.len(),
                k <= n,
                docs == lines@.map_values(|l: String| l@),
                chain@.words.len() + token_count(docs.skip(k as int)) <= u32::MAX,
                bridge_lines(old(chain)@, old(self).state, docs) == bridge_lines(
                    chain@,
                    self.state,
                    docs.skip(k as int),
                ),
            decreases n - k,
        {
            proof {
                assert(docs[k as int] == lines@[k as int]@);
                assert(docs.skip(k as int)[0] == docs[k as int]);
                assert(docs.skip(k as int).drop_first() =~= docs.skip(k + 1));
            }
            let ghost pre_chain = chain@;
            let ghost pre_cursor = self.state;
            self.train_line(lines[k].as_str(), chain);
            proof {
                lemma_bridge_words_growth(
                    pre_chain,
                    begin_state(),
                    pre_cursor,
                    split_ws(docs[k as int]),
                );
            }
            k += 1;
        }
        proof {
            assert(docs.skip(n as int) =~= Seq::<Seq<char>>::empty());
        }
    }
}

impl<'a, 'b> Trainer for MultilineEntry<'a, 'b> {
    open spec fn pre(&self, chain: Chain) -> bool {
        &&& chain.wf()
        &&& chain@.words.len() + split_ws(self.data@).len() <= u32::MAX
    }

    open spec fn post(&self, pre_chain: Chain, post_chain: Chain) -> bool {
        &&& post_chain@ == bridge_line(pre_chain@, *self.state, split_ws(self.data@)).0
        &&& post_chain.wf()
    }

    fn train(&mut self, chain: &mut Chain)
        ensures
            *final(self).state == bridge_line(
                old(chain)@,
                *old(self).state,
                split_ws(old(self).data@),
            ).1,
    {
        let end = train_line_bridged(chain, *self.state, self.data);
        *self.state = end;
    }
}

} // verus!

