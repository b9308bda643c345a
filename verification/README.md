# sab_workshop

A workbench for The Saboteur: it shows the characters of the game, exports them, and edits the
game's texts, objects and icons into a mod.

`src/` is the library. It holds the rules of the program, each function with its contract, proved by
Verus:

- `meshload`, `mesh_body`, `geometry`, `hierarchy`, `assemble`: models out of a pack, and characters
  out of models
- `glb`, `bundle`: models as glTF binaries, and the export bundle around them
- `resolve`: which texture a submesh gets, and why
- `changes`, `overlay`, `strings`, `objects`, `values`, `icons`: the changelist of a mod, and the
  pages that edit it
- `dlc`, `publish`, `release`: what a publish writes, and which slot the game mounts
- `settings`, `config`: the install, and what the program is started with
- `session`, `browse`, `pages`, `checks`, `messages`: the viewer, and what the program says
- `bytes`, `text`, `number`: bytes, text and numbers

Floating-point values pass through the library as their bits. What has to be computed with them
(matrices, weights, bounds, the text of a float) is done in `app/`, as are the disk, the window and
the text of the JSON files.

Two calls leave the library: `flate2` inflates the blobs of a model, and `png` encodes a texture.

`app/` is the program around the library. The readers of the game's own formats, and the window, are
crates of their own; `app/game.rs` says what the program needs of them.

`tests/` holds the tests of the library.
