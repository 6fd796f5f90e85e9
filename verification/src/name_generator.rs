//! Definition for the NameGenerator interface, responsible for training
//! itself with input text data and generating output text.
//!
//! Two generators implement it: the crate's own `MarkovChain`, and the
//! markov crate's chain of characters, held behind `CrateChain`.
use crate::markov_chain::MarkovChain;
use crate::markov_chain::grand_total;
use crate::markov_chain::push_char;
use crate::markov_chain::str_chars;
use crate::markov_chain::to_upper;
use vstd::prelude::*;

verus! {

/// A trainable name generator: it absorbs training text and produces new
/// names of a requested size.
pub trait NameGenerator {
    /// Whether the generator is in a usable state.
    spec fn gen_wf(&self) -> bool;

    /// Whether the generator can absorb this text without exceeding its
    /// capacity.
    spec fn can_feed(&self, text: Seq<char>) -> bool;

    fn feed(&mut self, text: String)
        requires
            old(self).gen_wf(),
            old(self).can_feed(text@),
        ensures
            final (self).gen_wf(),
    ;

    fn generate(&self, name_size: usize) -> String
        requires
            self.gen_wf(),
    ;
}

impl NameGenerator for MarkovChain {
    open spec fn gen_wf(&self) -> bool {
        self.wf()
    }

    open spec fn can_feed(&self, text: Seq<char>) -> bool {
        grand_total(self.table()) + text.len() <= usize::MAX
    }

    fn feed(&mut self, text: String)
        ensures
            final (self).table() == crate::markov_chain::spec_feed(
                old(self).table(),
                text@,
                old(self).spec_order(),
            ),
    {
        self.feed_str(text.as_str());
    }

    fn generate(&self, name_size: usize) -> (r: String)
        ensures
            self.table().len() == 0 ==> r@ == Seq::<char>::empty(),
            self.table().len() >= 1 ==> exists|s: Seq<char>|
                self.valid_generation(s, name_size as int) && r@ == crate::markov_chain::cap_first(
                    s,
                ),
    {
        self.generate_str(name_size)
    }
}

/// The markov crate's chain of characters. The chain itself is opaque; the
/// trusted wrappers below state only whether anything was fed into it.
#[verifier::external_body]
#[derive(Debug, PartialEq)]
pub struct CrateChain {
    inner: markov::Chain<char>,
}

/// Whether any token has been fed into the chain.
pub uninterp spec fn chain_fed(c: CrateChain) -> bool;

impl CrateChain {
    /// Relies on markov::Chain::of_order: a fresh chain of that order with
    /// nothing fed; it panics on order zero, so that is required away.
    #[verifier::external_body]
    pub fn of_order(order: usize) -> (r: Self)
        requires
            order >= 1,
        ensures
            !chain_fed(r),
    {
        Self { inner: markov::Chain::of_order(order) }
    }

    /// Relies on markov::Chain::new: a fresh chain of order one.
    #[verifier::external_body]
    pub fn new() -> (r: Self)
        ensures
            !chain_fed(r),
    {
        Self { inner: markov::Chain::new() }
    }
}

/// Relies on markov::Chain::feed: it records the token list's transitions,
/// so the chain counts as fed exactly when it already was or the list is
/// non-empty (an empty list is ignored).
#[verifier::external_body]
fn chain_feed(c: &mut CrateChain, tokens: &Vec<char>)
    ensures
        chain_fed(*final (c)) == (chain_fed(*old(c)) || tokens@.len() > 0),
{
    c.inner.feed(tokens);
}

/// Relies on markov::Chain::is_empty: true exactly when nothing was fed.
#[verifier::external_body]
fn chain_is_empty(c: &CrateChain) -> (r: bool)
    ensures
        r == !chain_fed(*c),
{
    c.inner.is_empty()
}

/// Relies on markov::Chain::generate: a random token walk from the start
/// state. It panics on a chain that was never fed, so that is required away.
#[verifier::external_body]
fn chain_generate(c: &CrateChain) -> (r: Vec<char>)
    requires
        chain_fed(*c),
{
    c.inner.generate()
}

impl NameGenerator for CrateChain {
    open spec fn gen_wf(&self) -> bool {
        true
    }

    open spec fn can_feed(&self, text: Seq<char>) -> bool {
        true
    }

    fn feed(&mut self, text: String) {
        let tokens = str_chars(text.as_str());
        chain_feed(self, &tokens);
    }

    /// A walk of the crate's chain, its first character upper-cased, cut to
    /// at most `name_size` characters; empty when nothing was fed.
    fn generate(&self, name_size: usize) -> String {
        if chain_is_empty(self) {
            return String::new();
        }
        let characters = chain_generate(self);
        if characters.len() == 0 || name_size == 0 {
            return String::new();
        }
        let keep = if name_size < characters.len() {
            name_size
        } else {
            characters.len()
        };
        let mut out = String::new();
        push_char(&mut out, to_upper(characters[0]));
        let mut i: usize = 1;
        while i < keep
            invariant
                1 <= i <= keep <= characters@.len(),
                out@.len() == i,
            decreases keep - i,
        {
            push_char(&mut out, characters[i]);
            i += 1;
        }
        out
    }
}

} // verus!
