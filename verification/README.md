# puzzle_services

A small system of three services and a stress runner: the problem service generates
puzzles (largest window of an array, counting islands on a map), has the solver service
answer them and stores them; the user service keeps users; the runner plays rounds
against all three.

- `src/` is the verified library (Verus): the message types, the solvers, the problem
  generators, how problem data is written and read back, message framing, the replies of
  the services, and the decisions of the stress runner. Beside the contracts stand laws
  such as that the island count does not change when a map is transposed or mirrored.
- `app/` holds the programs around it: sockets, SQLite, processes, serialization.
  `app/main.rs` takes the program to run as its first argument: `solver`, `problem`,
  `user` or `pretender`.
- `tests/` runs the library on concrete values.
