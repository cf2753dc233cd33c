//! The tokens of one input as the parser sees them: a window of upcoming
//! tokens that is filled on demand, the place of the current token in it,
//! and a stack of marked places to which the parser can go back.

use crate::lexer::{next_pos, token_at, Lexer};
use crate::token::Token;
use vstd::prelude::*;

verus! {

/// How far ahead of the current token `peek` can look where nothing else
/// is asked for.
pub const LOOKAHEAD: usize = 20;

/// The least that can be asked for: `peek` can always look this far.
pub const MIN_LOOKAHEAD: usize = 8;

/// Where the token begins that stands `count` tokens behind the one at
/// `pos`. Behind the end of the input every token is `Eof` and begins where
/// the input ends.
pub open spec fn nth_pos(input: Seq<char>, pos: int, count: nat) -> int
    decreases count,
{
    if count == 0 {
        pos
    } else {
        nth_pos(input, next_pos(input, pos), (count - 1) as nat)
    }
}

/// The token behind `count` tokens begins where the token behind the first
/// `count - 1` of them ends.
pub proof fn lemma_nth_pos_last(input: Seq<char>, pos: int, count: nat)
    requires
        count > 0,
    ensures
        nth_pos(input, pos, count) == next_pos(input, nth_pos(input, pos, (count - 1) as nat)),
    decreases count,
{
    reveal_with_fuel(nth_pos, 2);
    if count > 1 {
        lemma_nth_pos_last(input, next_pos(input, pos), (count - 1) as nat);
    }
}

/// The tokens of one input, with lookahead and marks.
pub struct Tokenizer {
    lexer: Lexer,
    window: Vec<Token>,
    starts: Vec<usize>,
    offset: usize,
    marks: Vec<usize>,
    lookahead: usize,
}

impl Tokenizer {
    /// The index in the input at which the token at index `i` of the window
    /// begins; for the index behind the window, the place of the lexer.
    spec fn start_of(&self, i: int) -> int {
        if 0 <= i < self.starts@.len() {
            self.starts@[i] as int
        } else {
            self.lexer.position()
        }
    }

    /// Whether the token behind the one at index `i` of the window begins
    /// where that one ends.
    spec fn linked(&self, i: int) -> bool {
        self.start_of(i + 1) == next_pos(self.lexer.input(), self.starts@[i] as int)
    }

    /// Links hold on in a tokenizer that has the lexer and the window of one
    /// in which they hold.
    proof fn lemma_links_kept(before: Tokenizer, after: Tokenizer)
        requires
            forall|i: int| 0 <= i < before.starts@.len() ==> #[trigger] before.linked(i),
            after.lexer == before.lexer,
            after.starts == before.starts,
        ensures
            forall|i: int| 0 <= i < after.starts@.len() ==> #[trigger] after.linked(i),
    {
        assert forall|i: int| 0 <= i < after.starts@.len() implies #[trigger] after.linked(i) by {
            assert(before.linked(i));
        }
    }

    /// Whether the tokenizer is sound: the window holds the tokens of the
    /// input from some place on without a gap, the lexer stands behind the
    /// last of them, no mark lies behind the current token or before an
    /// earlier mark, and while no place is marked the window begins with
    /// the current token.
    pub closed spec fn wf(&self) -> bool {
        &&& self.consistent()
        &&& self.marks@.len() == 0 ==> self.offset == 0
    }

    /// How far ahead of the current token `peek` can look.
    pub closed spec fn lookahead(&self) -> int {
        self.lookahead as int
    }

    spec fn consistent(&self) -> bool {
        &&& self.lookahead >= MIN_LOOKAHEAD
        &&& self.lexer.wf()
        &&& self.lexer.pending() == 0
        &&& self.window@.len() == self.starts@.len()
        &&& self.offset <= self.window@.len()
        &&& forall|i: int| 0 <= i < self.starts@.len()
            ==> #[trigger] self.starts@[i] <= self.lexer.input().len()
        &&& forall|i: int|
            0 <= i < self.window@.len() ==> (#[trigger] self.window@[i])@ == token_at(
                self.lexer.input(),
                self.starts@[i] as int,
            )
        &&& forall|i: int| 0 <= i < self.starts@.len() ==> #[trigger] self.linked(i)
        &&& forall|j: int| 0 <= j < self.marks@.len() ==> #[trigger] self.marks@[j] <= self.offset
        &&& forall|j: int, k: int|
            0 <= j <= k < self.marks@.len()
                ==> #[trigger] self.marks@[j] <= #[trigger] self.marks@[k]
    }

    /// The characters of the input.
    pub closed spec fn input(&self) -> Seq<char> {
        self.lexer.input()
    }

    /// The index in the input at which the current token begins.
    pub closed spec fn position(&self) -> int {
        self.start_of(self.offset as int)
    }

    /// The marked places, the latest last.
    pub closed spec fn marks(&self) -> Seq<int> {
        Seq::new(self.marks@.len(), |j: int| self.start_of(self.marks@[j] as int))
    }

    /// The input and its form in UTF-8 are no longer than the machine can
    /// count, and the current token begins within the input or at its end.
    pub proof fn lemma_bounds(&self)
        requires
            self.wf(),
        ensures
            self.input().len() <= usize::MAX,
            crate::lexer::utf8_len(self.input()) <= usize::MAX,
            0 <= self.position() <= self.input().len(),
    {
        self.lexer.lemma_bounds();
    }

    /// A tokenizer whose current token is the first of `input`, with no
    /// place marked.
    pub fn new(input: &str) -> (tokenizer: Tokenizer)
        ensures
            tokenizer.wf(),
            tokenizer.input() == input@,
            tokenizer.position() == 0,
            tokenizer.marks() == Seq::<int>::empty(),
            tokenizer.lookahead() == LOOKAHEAD,
    {
        Tokenizer::with_lookahead(input, LOOKAHEAD)
    }

    /// A tokenizer like that of `new`, whose `peek` can look `lookahead`
    /// tokens ahead, or `MIN_LOOKAHEAD` where less is asked for.
    pub fn with_lookahead(input: &str, lookahead: usize) -> (tokenizer: Tokenizer)
        ensures
            tokenizer.wf(),
            tokenizer.input() == input@,
            tokenizer.position() == 0,
            tokenizer.marks() == Seq::<int>::empty(),
            tokenizer.lookahead() == (if lookahead < MIN_LOOKAHEAD {
                MIN_LOOKAHEAD
            } else {
                lookahead
            }),
    {
        let tokenizer = Tokenizer {
            lexer: Lexer::new(input),
            window: Vec::new(),
            starts: Vec::new(),
            offset: 0,
            marks: Vec::new(),
            lookahead: if lookahead < MIN_LOOKAHEAD {
                MIN_LOOKAHEAD
            } else {
                lookahead
            },
        };
        assert(tokenizer.marks() =~= Seq::<int>::empty());
        tokenizer
    }

    /// Every tokenizer can look `MIN_LOOKAHEAD` tokens ahead.
    pub proof fn lemma_lookahead(&self)
        requires
            self.wf(),
        ensures
            self.lookahead() >= MIN_LOOKAHEAD,
    {
    }

    /// Drops from the window the tokens before the current one.
    fn trim(&mut self)
        requires
            old(self).consistent(),
            old(self).marks@.len() == 0,
        ensures
            final(self).wf(),
            final(self).input() == old(self).input(),
            final(self).position() == old(self).position(),
            final(self).marks() == old(self).marks(),
            final(self).lookahead() == old(self).lookahead(),
    {
        if self.offset > 0 {
            let window = self.window.split_off(self.offset);
            let starts = self.starts.split_off(self.offset);
            self.window = window;
            self.starts = starts;
            self.offset = 0;
            assert(forall|i: int|
                0 <= i <= self.starts@.len() ==> self.start_of(i) == old(self).start_of(
                    i + old(self).offset,
                ));
            assert forall|i: int| 0 <= i < self.starts@.len() implies #[trigger] self.linked(
                i,
            ) by {
                assert(old(self).linked(i + old(self).offset));
            }
        }
        assert(self.marks() =~= old(self).marks());
    }

    /// Scans one more token into the window.
    fn fill(&mut self)
        requires
            old(self).wf(),
        ensures
            final(self).wf(),
            final(self).input() == old(self).input(),
            final(self).position() == old(self).position(),
            final(self).marks() == old(self).marks(),
            final(self).lookahead() == old(self).lookahead(),
            final(self).offset == old(self).offset,
            final(self).window@.len() == old(self).window@.len() + 1,
            forall|i: int| 0 <= i <= old(self).window@.len()
                ==> final(self).start_of(i) == old(self).start_of(i),
    {
        let start = self.lexer.position_index();
        proof {
            self.lexer.lemma_bounds();
        }
        let token = self.lexer.next_token();
        self.window.push(token);
        self.starts.push(start);
        assert forall|i: int| 0 <= i < self.starts@.len() implies #[trigger] self.linked(i) by {
            if i < old(self).starts@.len() {
                assert(old(self).linked(i));
            }
        }
        assert(self.marks() =~= old(self).marks());
    }

    /// The token that stands `k - 1` tokens behind the current one, so that
    /// `peek(1)` is the current token. Nothing is consumed.
    pub fn peek(&mut self, k: usize) -> (token: &Token)
        requires
            old(self).wf(),
            1 <= k <= old(self).lookahead(),
        ensures
            final(self).wf(),
            final(self).input() == old(self).input(),
            final(self).position() == old(self).position(),
            final(self).marks() == old(self).marks(),
            final(self).lookahead() == old(self).lookahead(),
            token@ == token_at(
                old(self).input(),
                nth_pos(old(self).input(), old(self).position(), (k - 1) as nat),
            ),
    {
        while self.window.len() - self.offset < k
            invariant
                self.wf(),
                self.input() == old(self).input(),
                self.position() == old(self).position(),
                self.marks() == old(self).marks(),
                self.offset == old(self).offset,
                self.lookahead() == old(self).lookahead(),
            decreases k - (self.window.len() - self.offset),
        {
            self.fill();
        }
        proof {
            self.lemma_window_positions((k - 1) as nat);
        }
        &self.window[self.offset + (k - 1)]
    }

    /// The token at index `offset + count` of the window begins `count`
    /// tokens behind the current one.
    proof fn lemma_window_positions(&self, count: nat)
        requires
            self.wf(),
            self.offset + count <= self.window@.len(),
        ensures
            self.start_of(self.offset + count) == nth_pos(self.input(), self.position(), count),
        decreases count,
    {
        if count > 0 {
            self.lemma_window_positions((count - 1) as nat);
            lemma_nth_pos_last(self.input(), self.position(), count);
            assert(self.linked(self.offset + count - 1));
        }
    }

    /// Consumes the current token: the one behind it becomes current.
    /// While no place is marked, the consumed token leaves the window.
    pub fn advance(&mut self)
        requires
            old(self).wf(),
        ensures
            final(self).wf(),
            final(self).input() == old(self).input(),
            final(self).position() == next_pos(old(self).input(), old(self).position()),
            final(self).marks() == old(self).marks(),
            final(self).lookahead() == old(self).lookahead(),
    {
        if self.window.len() == self.offset {
            self.fill();
        }
        let ghost before = *self;
        assert(before.linked(before.offset as int));
        if self.marks.len() == 0 {
            self.window.remove(0);
            self.starts.remove(0);
            assert forall|i: int| 0 <= i < self.starts@.len() implies #[trigger] self.linked(
                i,
            ) by {
                assert(before.linked(i + 1));
            }
            assert(self.marks() =~= old(self).marks());
        } else {
            let filled = self.window.len();
            self.offset = self.offset + 1;
            assert forall|i: int| 0 <= i < self.starts@.len() implies #[trigger] self.linked(
                i,
            ) by {
                assert(before.linked(i));
            }
            assert(self.marks() =~= old(self).marks());
        }
    }

    /// Marks the place of the current token.
    pub fn mark(&mut self)
        requires
            old(self).wf(),
        ensures
            final(self).wf(),
            final(self).input() == old(self).input(),
            final(self).position() == old(self).position(),
            final(self).marks() == old(self).marks().push(old(self).position()),
            final(self).lookahead() == old(self).lookahead(),
    {
        self.marks.push(self.offset);
        proof {
            Self::lemma_links_kept(*old(self), *self);
        }
        assert(self.marks() =~= old(self).marks().push(old(self).position()));
    }

    /// Forgets the latest mark and stays at the current token.
    pub fn commit(&mut self)
        requires
            old(self).wf(),
            old(self).marks().len() > 0,
        ensures
            final(self).wf(),
            final(self).input() == old(self).input(),
            final(self).position() == old(self).position(),
            final(self).marks() == old(self).marks().drop_last(),
            final(self).lookahead() == old(self).lookahead(),
    {
        self.marks.pop();
        proof {
            Self::lemma_links_kept(*old(self), *self);
        }
        assert(self.marks() =~= old(self).marks().drop_last());
        if self.marks.len() == 0 {
            self.trim();
        }
    }

    /// Goes back to the place of the latest mark and forgets the mark.
    pub fn restore(&mut self)
        requires
            old(self).wf(),
            old(self).marks().len() > 0,
        ensures
            final(self).wf(),
            final(self).input() == old(self).input(),
            final(self).position() == old(self).marks().last(),
            final(self).marks() == old(self).marks().drop_last(),
            final(self).lookahead() == old(self).lookahead(),
    {
        let place = self.marks.pop().unwrap();
        self.offset = place;
        proof {
            Self::lemma_links_kept(*old(self), *self);
        }
        assert(self.marks() =~= old(self).marks().drop_last());
        if self.marks.len() == 0 {
            self.trim();
        }
    }
}

} // verus!
