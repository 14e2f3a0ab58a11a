# hp_solver

A hierarchical task network (HTN) planner for HDDL planning problems, written in
Verus: the planner's operations carry contracts that state what they compute, and
Verus proves them.

## Layout

- `src/datastructures`: domains, problems and search nodes, with their models.
- `src/toolbox`: the planner's operations: checking and trimming preconditions,
  enumerating the values that clear them, applying effects, passing
  preconditions down to subtasks, reducing a domain, recognising repeated states.
- `src/perform`: performing the entries of a node's queue (tasks of the initial
  network, tasks, methods, actions), for the totally and the partially ordered search.
- `src/search.rs`: the start of a search and each of its steps; `src/readiness.rs`
  decides whether a step can read what it needs.
- `src/hddl`: reading problem and domain descriptions written in HDDL: the
  grammar as spec functions over the characters of the text, and readers that
  give exactly what the grammar gives.
- `src/solution.rs`: the text of a plan in the format of the IPC 2020 HTN track.
- `src/beginning.rs`: a small built-in example problem.
- `src/laws.rs`: properties that hold across the operations.
- `app/`: the program around the library: the search loop with its time limit,
  and writing the plan to a file.

## Running

The program solves the built-in example when run without arguments, and the
problem of an HDDL problem file over an HDDL domain file when given the two
paths: `hp_solver path/to/problem.hddl path/to/domain.hddl`.
