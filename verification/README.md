# mursten

Game-building pieces with their behaviour proved by Verus.

`src/` is the verified library:

- `model`, `model_laws`, `example`: artifact models (blocks and structures
  built on them), their validation, dependencies, safe removal and slot
  renaming, and the laws that removal and renaming keep a valid model valid.
- `editor`: the actions of the model editor and how they are carried out.
- `level_gen`, `dungeon`, `tiles`, `scene`, `grid`: the level generator's walk
  through rooms, dungeon definitions, room blueprints, choosing sprite tiles
  by neighbourhood, tile maps, and grid rotations, flips and steps.
- `skeleton`, `parts`: skeletons made of links and of parts, and the changes
  they take.
- `contacts`: which contacts between bodies start and end.
- `pubsub`, `fw`: a publisher of items over channels and the command bus of
  the game loop.

`app/` holds a text-mode walk through the level generator and the floating
point parts of the game (box geometry, steering, animation timing).
`tests/` holds the tests.
