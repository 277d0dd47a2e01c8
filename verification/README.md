# chess_search

Verified search over small pawnless chess endings: a retrograde table of
every position of a material setup, narrowing search over symbolic regions,
relational and symbolic region engines, and synthesis and checking of
inductive safety certificates for rook endings.

Layout:

- `src/board.rs`: setups, positions, move generation through an oracle.
- `src/retro.rs`: the solved table, its full check, principal variations,
  statistics and proof sizes.
- `src/narrow.rs`: regions of positions, the narrowing engine, and the check
  of its leaves against the table.
- `src/absmove.rs`, `src/rel.rs`: abstract moves and the relational engine.
- `src/cert.rs`, `src/symcert.rs`, `src/synth.rs`: certificates, their
  concrete and symbolic checks, and their synthesis from a table.
- `src/certs.rs`: the certificate format.
- `app/main.rs`: the command-line driver.

No hand-written certificates ship with the library: certificates come from
synthesis, or from a caller.

A solved table passes its own full check: `Table::solve` states that every
value agrees with forward move generation (`table_checked`; only a
solve whose depth counter ran out, at 65533 plies, is exempt), which
`Table::verify` then reports as `Ok`. The proof rests on
`lemma_successor_legal` (a legal move from a legal position leads to a
legal position) and `lemma_exact_checked`.
