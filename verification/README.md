# poker

A poker library verified with Verus: cards and decks held as bit sets, hand ranking,
and Texas Hold'em and Omaha games whose winners and equities are worked out over every
way the board can still be dealt.

Layout of `src/`:

- `deck/` — ranks, suits, cards and decks (`mod.rs`), their bit-level model (`bits.rs`,
  `rank_bits.rs`), combinations of cards (`combinations.rs`), and a second card API built
  on the same decks (`card.rs`, `deck.rs`, `rank.rs`, `hand_ranker.rs`).
- `ranking/` — the rank of a five-or-more-card hand (`hand_rank.rs`), its proof that any
  five cards make a hand (`five_cards.rs`), and rank orders (`standard_hand_ranker.rs`).
- `ranks/` — hand ranks for that second card API.
- `games/` — the flop game state shared by Hold'em and Omaha (`flop_game.rs`), the two
  games, and the evaluation of winners and equity (`mod.rs`).
- `text.rs` — what the library reads of text: trimming and splitting at spaces.

Each public function states its result in `ensures` over mathematical models (sets of
cards, sequences of ranks); the laws that relate several functions are public proof
functions named `lemma_*`. `tests/` runs the library on concrete values.
