# sorcerers

Parts of the rules of an online implementation of the Sorcery: Contested
Realm trading card game, written in Verus: the geometry of the realm, turn
order, thresholds, deck lists, the layering of continuous effects, card
queries and the checks on the players' answers. Each function carries a
contract that the verifier proves, and the properties that span several
functions are stated and proved as lemmas next to them.

- `src/` — the verified library:
  - `board`, `zone`, `game`: squares and intersections of the realm, which
    zones are adjacent, nearby or a knight's move away, directions, the
    named actions, and the checks on a damage assignment;
  - `terrain`: bodies of water and spans of land;
  - `thresholds`: elemental thresholds, their sums and differences;
  - `state`: turns and their order, eliminated players, ability removal
    and affinity modifiers;
  - `layers`: the order in which ongoing effects apply, which of them are
    switched off, and the per-card indexes of what they grant;
  - `deck`: deck list lines, deck list validation, shuffling and rotating
    a deck;
  - `query`, `card_query`: the filters that card queries are made of, the
    resolution of their spatial filters, and the matching of a card
    against a whole query;
  - `zone_query`: how a zone query is answered, a random answer included;
  - `rules`: applying game effects to a model of the game state (player
    elimination, turn order, the start and the end of a turn, avatar life,
    healing, tapping, mana, drawing, rearranging a deck, carrying and
    control, strikes, kills and defenders), their log text, effect queries
    and the counters that effects add and take away;
  - `client`: the checks on a player's message and what the game does with
    it (leaving, ending a turn, clicks on cards, the mulligan);
  - `actions`: the effects of a unit's actions once the players have
    answered what the actions ask;
  - `combat`: fights and strikes (who strikes whom, in which order, with
    first strike and shared damage), who may defend an attack, and the
    queries that wait for damage or moves;
  - `text`: the small parsers and printers the rest uses.
- `tests/` — tests of the library, run against the compiled crate.
- `app/` — what the library leaves to its host: deck lists on disk, the
  serialised forms of its values, the error type the program reports.
