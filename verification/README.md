# cyber_heist

The rules of a deck-building heist game, written in Verus and proved against
their contracts: the contract map the player walks (authored or generated,
with zones closed by bosses and branches locked once declined), the run's
lifecycle, the noise meter and the sentry that raises it, cards and how they
are played, drawn, described and rewarded, random events, and the wallet the
player carries between encounters.

## Layout

- `src/` is the verified library. Each module states its data through a view
  and its operations through `requires`/`ensures`; public `law_*` proof
  functions state what holds across calls (for example, that a walk through
  a generated contract can always go on until the final boss, or that the
  noise meter stays within its range whatever is added).
  `src/random.rs` holds the only calls into `rand`, each with the contract
  it is trusted to meet.
- `tests/` runs the library on concrete values.
- `app/` is the Godot side: the nodes the scenes talk to, loading the card
  data with `ron`, and the `serde` records for it. It holds no rules of its
  own and calls the library for every decision.
