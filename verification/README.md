# colonie_mars

The rules of a Mars colony simulation, written in Verus and proved against
their contracts, with a small headless driver around them.

- `src/` — the verified library:
  - `grille`: grid cells, neighbourhood, hashed cell sets and maps;
  - `bruit`: the integer hashes that seed procedural choices;
  - `monde`: chunks of the world, local cells, terrain cells, resource extraction;
  - `navigation`: walking distances from several origins, and the shortest walk to the nearest goal;
  - `tri`, `tri_stable`: sorting cells without repetition, stable sorting by key;
  - `structures`: kinds of structures, footprints, links between structures, identifiers;
  - `reseaux`: life-support networks and their numbering;
  - `cycle`: which oxygen extractors are weighed for power, and in which order;
  - `interactions`: cells from which a structure is worked on, placement rules;
  - `recharge`: the recharge zone around the main base, and the way back to it;
  - `taches`: task assignment and active assignments;
  - `tableau`: the task board posted each cycle, and task identifiers;
  - `deplacement`: where a worker heads with its task, and the step it takes;
  - `promenade`: where a walker heads next;
  - `apparence`: the kinds of suit and what they carry;
  - `streaming`: which chunks are kept loaded, and the loading queues.
- `tests/` — tests of the library on concrete values.
- `app/` — the headless driver: floating-point reserves of air, ice and energy,
  the air and ice a worker weighs, and one planning cycle and one worker tick
  on a flat landing site.
