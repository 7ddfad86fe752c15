# dungeon

A terminal cave roguelike whose rules live in a library verified with Verus.

`src/` is the library. Each public function states in `requires`/`ensures` what it
does, and Verus proves it:

- the map and its tiles (`tile`, `room`, `map`), floor generation steps that carve,
  connect and finish a cave (`terrain`, `regions`, `reach`, `floors`);
- path finding (`pathfinding`, A* over eight directions), field of view (`fov`),
  straight lines (`line`) and occupancy (`occupancy`);
- the action queue and its rules (`action`, `turns`), fighting and monster conduct
  (`conduct`, `monsters`), stats, effects and experience (`stats`);
- items, the bag and worn items (`items`, `bag`), the bag and throw screens as state
  machines (`screens`, `keymap`, `events`);
- the floor in play (`world`): every action an actor can take, the turn loop and the
  monsters' decisions, each keeping the floor's invariant;
- what is drawn (`view`, `display`, `panels`), and saves (`saves`, `snapshot`) with
  their read-back laws.

Calls into outside code (`rand`'s small generator, `symmetric-shadowcasting`, and
std's `String::push`) stand behind a few trusted wrappers in `rng`, `fov` and `text`,
each with a doc comment saying what it assumes.

`app/` is the terminal program around the library: key reading, drawing with
`ratatui`, the save file with `serde`/`bincode`, item data from JSON, and the parts of
cave generation that work with fractions (`terrain-forge`, water, monster counts).

`tests/` runs the library on concrete floors.
