# flappy_bird

Flappy birds that learn to fly by policy gradients, and two dashboards that
watch their agents.

* `src/` is the library, verified with Verus: the rules of the game, what an agent
  sees, decides and remembers, how all agents become copies of the best one, the
  registries of agents, and what the dashboards show and how they are steered.
* `app/` is the program around it: the window, the terminals, the threads, the
  networks and the floating-point arithmetic.  Run it with `dashboard` for the
  dashboard of the training threads.
* `tests/` runs the library.

The library holds measurements by their bit patterns (`scalar`): it compares and
keeps them, and leaves arithmetic to the program.
