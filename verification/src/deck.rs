//! The deck manager: builds stacked decks, shuffles, cuts, and serves
//! cards from the top (the end of the backing sequence).

use vstd::prelude::*;
use vstd::seq_lib::group_to_multiset_ensures;
use vstd::seq_lib::lemma_multiset_commutative;
use rand::RngExt;

use crate::cards::Card;
use crate::cards::card_at;
use crate::cards::card_index;
use crate::cards::card_from_index;
use crate::cards::fresh_deck;
use crate::cards::stacked_decks;
use crate::cards::lemma_card_index_in_range;
use crate::cards::lemma_card_at_injective;

verus! {

/// Relies on `rand::rng` and `rand::RngExt::random_range`: a draw from the
/// half-open range `0..bound` always lies strictly below `bound`; the call
/// panics only on an empty range, which `bound >= 1` rules out. Nothing more
/// is assumed of the value: it is random.
#[verifier::external_body]
fn random_below(bound: usize) -> (r: usize)
    requires
        bound >= 1,
    ensures
        r < bound,
{
    rand::rng().random_range(0..bound)
}

/// One swap of a shuffle pass: the cards at positions `r` and `m` exchanged.
pub open spec fn apply_step(s: Seq<Card>, r: int, m: int) -> Seq<Card> {
    s.update(r, s[m]).update(m, s[r])
}

/// The deck after the first draws of one shuffle pass: the k-th draw
/// (0-based) swaps position `s.len() - 1 - k` with the drawn position.
pub open spec fn apply_pass(s: Seq<Card>, draws: Seq<int>) -> Seq<Card>
    decreases draws.len(),
{
    if draws.len() == 0 {
        s
    } else {
        apply_step(apply_pass(s, draws.drop_last()), draws.last(), s.len() - draws.len())
    }
}

/// A complete, well-formed pass over a deck of `n` cards: one draw for each
/// walking position from `n - 1` down to 1, each drawn position strictly
/// below the position it is swapped with.
pub open spec fn valid_pass(draws: Seq<int>, n: int) -> bool {
    &&& draws.len() == if n <= 1 {
        0int
    } else {
        n - 1
    }
    &&& forall|k: int| 0 <= k < draws.len() ==> 0 <= #[trigger] draws[k] < n - 1 - k
}

/// The deck after a sequence of shuffle passes, applied in order.
pub open spec fn apply_passes(s: Seq<Card>, passes: Seq<Seq<int>>) -> Seq<Card>
    decreases passes.len(),
{
    if passes.len() == 0 {
        s
    } else {
        apply_pass(apply_passes(s, passes.drop_last()), passes.last())
    }
}

/// Every pass of the sequence is a complete, well-formed pass over a deck
/// of `n` cards.
pub open spec fn all_valid_draws(passes: Seq<Seq<int>>, n: int) -> bool {
    forall|i: int| 0 <= i < passes.len() ==> valid_pass(#[trigger] passes[i], n)
}

/// A single cut of the deck at position `p`: the cards from `p` onward,
/// followed by the cards before `p`.
pub open spec fn cut_deck(s: Seq<Card>, p: int) -> Seq<Card> {
    s.subrange(p, s.len() as int) + s.subrange(0, p)
}

/// Exchanges the cards at two positions of the deck.
fn swap_cards(cards: &mut Vec<Card>, r: usize, m: usize)
    requires
        r < old(cards)@.len(),
        m < old(cards)@.len(),
    ensures
        final(cards)@ == apply_step(old(cards)@, r as int, m as int),
{
    let cr = cards[r];
    let cm = cards[m];
    cards[r] = cm;
    cards[m] = cr;
    proof {
        assert(cards@ =~= apply_step(old(cards)@, r as int, m as int));
    }
}

/// The deck of a game round: an ordered sequence of cards, drawn from the
/// end.
pub struct Game {
    cards: Vec<Card>,
}

impl View for Game {
    type V = Seq<Card>;

    closed spec fn view(&self) -> Seq<Card> {
        self.cards@
    }
}

impl Game {
    /// Builds the deck for a round: `num_of_decks` stacked fresh decks,
    /// shuffled `num_of_shuffles` times, then cut once at `cut_at`. The
    /// result is exactly the stacked decks with some sequence of well-formed
    /// shuffle passes applied, then the cut; with zero shuffles it is the
    /// cut of the stacked decks themselves.
    pub fn new(num_of_decks: u16, num_of_shuffles: u16, cut_at: usize) -> (game: Game)
        requires
            cut_at <= 52 * (num_of_decks as int),
        ensures
            game@.len() == 52 * (num_of_decks as int),
            game@.to_multiset() == stacked_decks(num_of_decks as int).to_multiset(),
            num_of_shuffles == 0 ==> game@ == cut_deck(
                stacked_decks(num_of_decks as int),
                cut_at as int,
            ),
            exists|passes: Seq<Seq<int>>|
                passes.len() == num_of_shuffles && all_valid_draws(
                    passes,
                    52 * (num_of_decks as int),
                ) && game@ == cut_deck(
                    apply_passes(stacked_decks(num_of_decks as int), passes),
                    cut_at as int,
                ),
    {
        let ghost deck0 = stacked_decks(num_of_decks as int);
        let mut cards: Vec<Card> = Vec::new();
        Self::add_decks(&mut cards, num_of_decks);
        proof {
            lemma_stacked_decks_len(num_of_decks as int);
            assert(cards@ =~= deck0);
        }
        Self::shuffle_cards(&mut cards, num_of_shuffles);
        let ghost passes = choose|p: Seq<Seq<int>>|
            p.len() == num_of_shuffles && all_valid_draws(p, deck0.len() as int) && cards@
                == apply_passes(deck0, p);
        Self::cut_cards(&mut cards, cut_at);
        proof {
            assert(passes.len() == num_of_shuffles && all_valid_draws(
                passes,
                52 * (num_of_decks as int),
            ) && cards@ == cut_deck(apply_passes(deck0, passes), cut_at as int));
        }
        Game { cards }
    }

    /// Appends `num_of_decks` fresh decks in canonical order. Deterministic:
    /// no randomness is involved.
    pub fn add_decks(cards: &mut Vec<Card>, num_of_decks: u16)
        ensures
            final(cards)@ == old(cards)@ + stacked_decks(num_of_decks as int),
    {
        let ghost base = cards@;
        let mut idx: u16 = 0;
        while idx < num_of_decks
            invariant
                idx <= num_of_decks,
                cards@ == base + stacked_decks(idx as int),
            decreases num_of_decks - idx,
        {
            let mut k: usize = 0;
            while k < 52
                invariant
                    k <= 52,
                    cards@ == base + stacked_decks(idx as int) + fresh_deck().take(k as int),
                decreases 52 - k,
            {
                cards.push(card_from_index(k));
                proof {
                    assert(fresh_deck().take(k as int).push(card_at(k as int)) =~= fresh_deck()
                        .take(k + 1));
                }
                k += 1;
            }
            proof {
                assert(fresh_deck().take(52) =~= fresh_deck());
                assert(stacked_decks(idx as int) + fresh_deck() == stacked_decks(idx + 1));
                assert(base + stacked_decks(idx as int) + fresh_deck() =~= base + (stacked_decks(
                    idx as int,
                ) + fresh_deck()));
            }
            idx += 1;
        }
        proof {
            assert(cards@ =~= base + stacked_decks(num_of_decks as int));
        }
    }

    /// Runs `num_of_shuffles` independent shuffle passes. Each pass walks
    /// from the last position down to the second and swaps it with a random
    /// strictly earlier position. The cards are reordered, never added,
    /// removed or duplicated; zero passes leave the deck untouched, and the
    /// final order is exactly some sequence of well-formed passes applied to
    /// the starting order — only which positions were drawn is random.
    pub fn shuffle_cards(cards: &mut Vec<Card>, num_of_shuffles: u16)
        ensures
            final(cards)@.to_multiset() == old(cards)@.to_multiset(),
            final(cards)@.len() == old(cards)@.len(),
            num_of_shuffles == 0 ==> final(cards)@ == old(cards)@,
            old(cards)@.len() <= 1 ==> final(cards)@ == old(cards)@,
            exists|passes: Seq<Seq<int>>|
                passes.len() == num_of_shuffles && all_valid_draws(
                    passes,
                    old(cards)@.len() as int,
                ) && final(cards)@ == apply_passes(old(cards)@, passes),
    {
        let ghost orig = cards@;
        let ghost n = orig.len() as int;
        let ghost mut passes: Seq<Seq<int>> = Seq::empty();
        let mut i: u16 = 0;
        while i < num_of_shuffles
            invariant
                i <= num_of_shuffles,
                cards@.to_multiset() == orig.to_multiset(),
                cards@.len() == orig.len(),
                i == 0 ==> cards@ == orig,
                orig.len() <= 1 ==> cards@ == orig,
                n == orig.len() as int,
                passes.len() == i as int,
                all_valid_draws(passes, n),
                cards@ == apply_passes(orig, passes),
            decreases num_of_shuffles - i,
        {
            let ghost pass_start = cards@;
            let ghost mut draws: Seq<int> = Seq::empty();
            let mut m: usize = cards.len();
            while m > 1
                invariant
                    cards@.to_multiset() == orig.to_multiset(),
                    cards@.len() == n,
                    m == n - draws.len(),
                    n == 0 ==> m == 0,
                    n >= 1 ==> 1 <= m <= n,
                    forall|k: int| 0 <= k < draws.len() ==> 0 <= #[trigger] draws[k] < n - 1 - k,
                    cards@ == apply_pass(pass_start, draws),
                    pass_start.len() == n,
                decreases m,
            {
                m -= 1;
                let r = random_below(m);
                let ghost before = cards@;
                swap_cards(cards, r, m);
                proof {
                    lemma_swap_preserves_multiset(before, r as int, m as int);
                    let prev = draws;
                    draws = draws.push(r as int);
                    assert(draws.drop_last() =~= prev);
                    assert(draws.last() == r as int);
                    assert(cards@ == apply_step(
                        apply_pass(pass_start, prev),
                        r as int,
                        pass_start.len() - draws.len(),
                    ));
                }
            }
            proof {
                assert(valid_pass(draws, n));
                let prev = passes;
                passes = passes.push(draws);
                assert(passes.drop_last() =~= prev);
                assert(passes.last() == draws);
                assert(cards@ == apply_pass(apply_passes(orig, prev), draws));
                assert forall|j: int| 0 <= j < passes.len() implies valid_pass(
                    #[trigger] passes[j],
                    n,
                ) by {
                    if j < prev.len() {
                        assert(passes[j] == prev[j]);
                    }
                }
            }
            i += 1;
        }
        proof {
            assert(passes.len() == num_of_shuffles && all_valid_draws(passes, n) && cards@
                == apply_passes(orig, passes));
        }
    }

    /// Cuts the deck once at `middle`: the cards from `middle` onward come
    /// first, followed by the cards before `middle`. Cutting at 0 or at the
    /// full length leaves the order unchanged, and no cut changes which
    /// cards are present.
    pub fn cut_cards(cards: &mut Vec<Card>, middle: usize)
        requires
            middle <= old(cards)@.len(),
        ensures
            final(cards)@ == cut_deck(old(cards)@, middle as int),
            final(cards)@.to_multiset() == old(cards)@.to_multiset(),
            final(cards)@.len() == old(cards)@.len(),
            middle == 0 || middle == old(cards)@.len() ==> final(cards)@ == old(cards)@,
    {
        let ghost orig = cards@;
        let n = cards.len();
        let mut stacked: Vec<Card> = Vec::new();
        let mut j: usize = middle;
        while j < n
            invariant
                middle <= j <= n,
                n == orig.len(),
                cards@ == orig,
                stacked@ == orig.subrange(middle as int, j as int),
            decreases n - j,
        {
            stacked.push(cards[j]);
            proof {
                assert(orig.subrange(middle as int, j as int).push(orig[j as int]) =~= orig
                    .subrange(middle as int, j + 1));
            }
            j += 1;
        }
        let mut k: usize = 0;
        while k < middle
            invariant
                k <= middle <= n,
                n == orig.len(),
                cards@ == orig,
                stacked@ == orig.subrange(middle as int, n as int) + orig.subrange(0, k as int),
            decreases middle - k,
        {
            stacked.push(cards[k]);
            proof {
                assert(orig.subrange(0, k as int).push(orig[k as int]) =~= orig.subrange(
                    0,
                    k + 1,
                ));
                assert((orig.subrange(middle as int, n as int) + orig.subrange(0, k as int)).push(
                    orig[k as int],
                ) =~= orig.subrange(middle as int, n as int) + orig.subrange(0, k + 1));
            }
            k += 1;
        }
        *cards = stacked;
        proof {
            let top = orig.subrange(0, middle as int);
            let bottom = orig.subrange(middle as int, n as int);
            assert(orig =~= top + bottom);
            lemma_multiset_commutative(top, bottom);
            lemma_multiset_commutative(bottom, top);
            assert((bottom + top).to_multiset() =~= orig.to_multiset());
            if middle == 0 || middle == n {
                assert(cards@ =~= orig);
            }
        }
    }

    /// Removes and returns the card at the top of the deck (the end of the
    /// sequence), or nothing once the deck is exhausted.
    pub fn issue_card(&mut self) -> (r: Option<Card>)
        ensures
            old(self)@.len() > 0 ==> r == Some(old(self)@.last()) && final(self)@ == old(
                self,
            )@.drop_last(),
            old(self)@.len() == 0 ==> r is None && final(self)@ == old(self)@,
    {
        self.cards.pop()
    }

    /// How many cards are left to draw.
    pub fn remaining(&self) -> (n: usize)
        ensures
            n == self@.len(),
    {
        self.cards.len()
    }
}

/// Swapping two positions of a sequence leaves its multiset of elements
/// unchanged.
proof fn lemma_swap_preserves_multiset(s: Seq<Card>, r: int, m: int)
    requires
        0 <= r < m < s.len(),
    ensures
        s.update(r, s[m]).update(m, s[r]).to_multiset() == s.to_multiset(),
{
    let t = s.update(r, s[m]).update(m, s[r]);
    let a = s.subrange(0, r);
    let b = s.subrange(r + 1, m);
    let c = s.subrange(m + 1, s.len() as int);
    assert(s =~= a + seq![s[r]] + b + seq![s[m]] + c);
    assert(t =~= a + seq![s[m]] + b + seq![s[r]] + c);
    lemma_concat5_multiset(a, seq![s[r]], b, seq![s[m]], c);
    lemma_concat5_multiset(a, seq![s[m]], b, seq![s[r]], c);
    assert(s.to_multiset() =~= t.to_multiset());
}

/// The multiset of a five-way concatenation is the sum of the parts'
/// multisets.
proof fn lemma_concat5_multiset(a: Seq<Card>, b: Seq<Card>, c: Seq<Card>, d: Seq<Card>, e: Seq<Card>)
    ensures
        (a + b + c + d + e).to_multiset() == a.to_multiset().add(b.to_multiset()).add(
            c.to_multiset(),
        ).add(d.to_multiset()).add(e.to_multiset()),
{
    lemma_multiset_commutative(a + b + c + d, e);
    lemma_multiset_commutative(a + b + c, d);
    lemma_multiset_commutative(a + b, c);
    lemma_multiset_commutative(a, b);
}

/// In a single fresh deck every one of the 52 suit-rank combinations
/// appears exactly once.
pub proof fn lemma_fresh_deck_count(c: Card)
    ensures
        fresh_deck().len() == 52,
        fresh_deck().to_multiset().count(c) == 1,
{
    lemma_card_index_in_range(c);
    lemma_fresh_deck_count_take(c, 52);
    assert(fresh_deck().take(52) =~= fresh_deck());
}

/// Among the first `n` cards of a fresh deck, a card appears once if its
/// canonical position lies below `n` and not at all otherwise.
proof fn lemma_fresh_deck_count_take(c: Card, n: int)
    requires
        0 <= n <= 52,
    ensures
        fresh_deck().take(n).to_multiset().count(c) == if card_index(c) < n {
            1int
        } else {
            0int
        },
    decreases n,
{
    broadcast use group_to_multiset_ensures;
    broadcast use vstd::multiset::group_multiset_axioms;

    lemma_card_index_in_range(c);
    let s = fresh_deck();
    if n == 0 {
        assert(s.take(0) =~= Seq::<Card>::empty());
        assert(!s.take(0).contains(c));
    } else {
        lemma_fresh_deck_count_take(c, n - 1);
        assert(s.take(n) =~= s.take(n - 1).push(s[n - 1]));
        assert(s.take(n - 1).push(s[n - 1]).to_multiset() =~= s.take(n - 1).to_multiset().insert(
            s[n - 1],
        ));
        lemma_card_at_injective(n - 1);
        assert(s[n - 1] == c <==> card_index(c) == n - 1);
    }
}

/// `d` stacked decks hold exactly `52 * d` cards.
pub proof fn lemma_stacked_decks_len(d: int)
    requires
        0 <= d,
    ensures
        stacked_decks(d).len() == 52 * d,
    decreases d,
{
    if d > 0 {
        lemma_stacked_decks_len(d - 1);
    }
}

/// Building `d` stacked decks yields exactly `52 * d` cards, and every one
/// of the 52 suit-rank combinations appears exactly `d` times.
pub proof fn lemma_stacked_decks_count(d: int, c: Card)
    requires
        0 <= d,
    ensures
        stacked_decks(d).len() == 52 * d,
        stacked_decks(d).to_multiset().count(c) == d,
    decreases d,
{
    broadcast use group_to_multiset_ensures;
    broadcast use vstd::multiset::group_multiset_axioms;

    if d == 0 {
        assert(!stacked_decks(0).contains(c));
    } else {
        lemma_stacked_decks_count(d - 1, c);
        lemma_fresh_deck_count(c);
        lemma_multiset_commutative(stacked_decks(d - 1), fresh_deck());
    }
}

} // verus!
