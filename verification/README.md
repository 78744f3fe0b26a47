# PocketLab

A search system for robust Pokémon TCG Pocket decks, with its core written in
Verus and proved against its contracts.

## Layout

- `src/` — the verified library:
  - `domain` — cards, the card registry, decks, the legality rules and the
    canonical deck key;
  - `deck_text` — the deck text format of the Limitless deck builder and DeckGym;
  - `deckgym_adapter`, `deckgym_registry` — what the DeckGym engine is given and
    gives back: deck text, game seeds, outcome tallies, the card registry;
  - `simulator`, `cache`, `evaluator` — matchup results, the deterministic mock
    arena, the cache's decisions and matchup seeds;
  - `search` — the xorshift generator, one-slot mutation, de-duplication and one
    generation of the elitist search;
  - `limitless` — decklists and the grouping of tournament standings;
  - `text`, `keyed` — text handling and key-sorted vectors used throughout.
- `app/` — the program around it: floating-point scoring, the SQLite cache, the
  Limitless HTTP client, and `app/deckgym.rs`, which runs the DeckGym engine.
  The DeckGym engine crate is not a dependency of this package, so that
  module is left out of the build (it sits behind a `deckgym` cfg that the
  package does not turn on).
- `tests/` — tests of the library.

The laws the library keeps are public proof functions named `law_*`.
