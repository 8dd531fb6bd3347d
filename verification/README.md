# urne

Voting methods of social choice theory, written in Verus and verified.

An election is a list of candidate names and a list of ballots, each ballot ranking some
candidates from best to worst. Ten methods turn an election into a ranking of all
candidates: Plurality, the two-round system, instant-runoff voting (IRV), Borda, Bucklin,
Baldwin, Copeland, Copeland with Borda tie-break, Schulze, and Smith+IRV.

Layout:

- `src/types.rs`: `Election`, `Ballot`, `VoteResult`, and what a well-formed election is.
- `src/order.rs`: dictionary order on names, and the verified sort that ranks candidates
  by keys (higher first, then by name, then by index).
- `src/tally.rs`: ballot counts (first places, duels, Borda points, first candidate still
  in the race) and their properties.
- `src/vote/`: one module per method, each with the specification of its ranking, the
  verified computation, and the laws it satisfies (majority and Condorcet criteria,
  Baldwin's Condorcet criterion on ballots that rank every candidate, every candidate
  ranked exactly once, IRV independent of the order of ballots, plurality monotone, the
  Smith set is the smallest dominating set, Schulze's strongest paths are attained and its
  beat relation is transitive, duel counts add over lists of ballots).
- `src/parser.rs`: the data file format (header `A;B;C`, ballots `B>A`) with an exact
  specification of accepted texts and of each error, and the proof that reading the text
  of an election gives it back.
- `app/main.rs`: the command-line program: reads the file, runs the ten methods on
  separate threads and prints each winner.
- `tests/`: tests on concrete elections.
