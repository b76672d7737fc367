# conservation-protocol

Agents communicate by gossiping rows of the graph Laplacian: each agent broadcasts its own
sparse Laplacian row, signed with a deterministic FNV-1a signature, and merges the rows it
receives into a local view of the network's Laplacian. Consensus is tracked through the spectral
gap (λ₂), and a violation detector checks a conservation law γ + η = C.

## Layout

- `src/` — the library, verified with Verus.
  - `message.rs`: sparse entries, messages, signatures, validation, rows built from adjacency
    lists, dense rows.
  - `laplacian.rs`: the sparse Laplacian, its construction from adjacency lists (a stable sort
    by column), row access, merging of received rows, degrees.
  - `gossip.rs`: one agent's gossip engine: broadcast, receive, the receiving phase of a round
    and its conclusion.
  - `consensus.rs`: the consensus state machine (Awaiting, Converging, Reached, Lost).
  - `violation.rs`: the record of conservation violations and the report of a full check.
  - `digits.rs`: decimal and hexadecimal text (agent ids, signatures), and reading a `usize`.
  - `binary64.rs`: the binary64 bit patterns the library writes itself.
- `app/` — the demonstration program and everything that computes on floating-point values
  (eigenvalues, spectral gap, conservation arithmetic), the JSON encoding through serde, and
  displayable errors.
- `tests/` — tests of the library.

## Values

Entry values, spectral readings and the conservation quantities are IEEE-754 binary64
numbers. The library holds them as their bit patterns (`f64::to_bits`) and never computes on
them; `app/` converts with `f64::from_bits` / `f64::to_bits` and does the arithmetic.
