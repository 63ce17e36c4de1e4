# pvz_manager

A save-file manager for *Plants vs. Zombies*: it backs up the game's save file
of a game mode as nodes of a version tree, restores any backup, and prunes the
nodes that are no longer worth keeping.

- `src/` is the library, verified with Verus:
  - `models.rs` — the manager's data (one backup tree per game mode) and its
    operations: creating games and nodes, looking nodes up, the current node,
    children and the parent-to-children table, and cleaning.
  - `tree.rs` — what lies below a node and which nodes are kept; the
    algorithm that finds the removable nodes.
  - `laws.rs` — properties of cleaning and of the other operations.
  - `outline.rs` — the order in which a tree is shown.
  - `commands.rs` — the decisions behind the command line and the window.
  - `game_ids.rs` — the game modes and searching them.
  - `paths.rs` — the files the manager reads and writes.
  - `text.rs` — decimal numerals and substring search.
- `app/` is the program: the command line, the window, and the file work.
- `tests/` runs the library on concrete data.
