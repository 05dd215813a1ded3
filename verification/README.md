# vrptw_code

Metaheuristics for the vehicle routing problem with time windows: a depot,
clients with a position, a demand and a time window, and vehicles of one
capacity. A solution is a set of routes that start and end at the depot,
visit every client exactly once, and never carry more than the capacity.

The library (`src/`) is written in Verus and verified:

- `parser`: reading an instance file; `InputData::parse_input` is proved to
  compute exactly the value that `parse_input_spec` defines line by line.
- `format_laws`: what the format ignores, proved of `parse_input_spec`:
  white space around a line, CR LF line ends, blank lines.
- `text`: the string helpers the parser needs (trimming, lines, words,
  decimal numbers), each with its specification.
- `problem`: the instance, solutions and their model (a sequence of routes),
  route loads, squared distances, the random solution and the greedy
  (nearest fitting client) solution, both proved to visit every client once.
- `neighbouring`: the moves (relocate, 2-opt, swap) and their random
  versions, proved to keep every client exactly once and never to overload a
  vehicle; 2-opt on the same stretch twice gives the route back.
- `aco`: the integer side of the ant colony (candidate lists of the nearest
  nodes, the tour of an ant with the set of clients still to visit, the
  clients it may visit next, the edges that receive pheromone).
- `tabu`, `hill_climbing`, `runner`: the tabu list (a moved client stays
  forbidden for exactly `tabu_tenure` iterations), the counters of the
  descent and of simulated annealing, and the decisions of the worker that
  runs an optimiser.
- `rng`: the random draws, taken from the `rand` crate.

`app/` holds what is not verified: the floating-point parts (Euclidean
lengths, annealing temperatures, pheromone levels), the optimiser registry,
the worker thread, the plots and the graphical interface.
