# slot_rtp

Return-to-player arithmetic for a five-reel slot machine, verified with Verus.

- `src/card.rs`: icon ids by name, and when two icons count as the same card.
- `src/count.rs`: counting the icon that leads a line and how far it runs.
- `src/pay.rs`: the pay table.
- `src/reel.rs`: reel strips, the window a stop shows, and the pay lines.
- `src/spin.rs`: one spin of the base machine.
- `src/games/`: the base game, the bonus game (cans picked over all
  combinations) and the feature game (every outcome of a spin with some reels
  held, with the active masks it leads to).
- `app/main.rs`: reads the data files, runs the games over threads and turns
  the exact counts into expected pays (floating point).
