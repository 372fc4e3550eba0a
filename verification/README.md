# hgs_cvrp

Verified core of a Hybrid Genetic Search (HGS) for the Capacitated Vehicle Routing
Problem with the SWAP* neighbourhood.

- `src/` is the library, written in Verus: every function has a contract and is
  proved. It holds the integer logic of the solver: the `minstd_rand` generator and
  the shuffle, circle sectors, the deque and the route decoding of the linear Split,
  the OX crossover, the granular neighbourhoods, the linked representation of the
  routes in the local search with the rewiring of every move (each move keeps the
  routes routes), the successor/predecessor links of a solution, and the readers of
  the command line and of CVRPLIB instance files (numbers are checked against the
  syntax of `FromStr`; floating-point values are handed over as token positions).
- `app/` is ordinary Rust around it: everything that computes on floating-point
  numbers (distances, costs, penalties, the Split labels, the choice of moves in the
  local search), file input/output and printing.
- `tests/` runs the library on concrete values.
