# project_reindeer

A verified library for a reindeer maze game and its two helper tools.

* `src/` is the library, proved with Verus:
  * `coordinate`, `direction`: grid vectors, quarter-turn rotations, row-major
    indices and neighbourhoods;
  * `maze`: parsing a maze text (`.`, `#`, `S`, `E`) with exact error
    reporting;
  * `path_search`: the reindeer's cheapest-path search, one visited state at
    a time, with its tile updates; a finished search reports the best score
    and every cheapest walk to the reported end state;
  * `path_info`, `maze_tile_state`, `level`, `random`: the letter about the
    result, tile-state flags, the main level's decisions, and what is done
    with the engine's random numbers;
  * `credits`, `directories`, `paths`: grouping and sorting asset
    descriptions and composing the Markdown and BBCode credits;
  * `version_sync`: version tags and the lines of `Cargo.toml` and
    `project.godot` files that carry the version.
* `tests/` runs the library on concrete inputs.
* `app/` holds what Verus does not see: the two tools' `main` functions with
  their file and command-line work, and the Godot classes that draw random
  numbers and drive the search inside the engine.
