# studio_core

The models behind a control centre for a Hyprland desktop that runs Omarchy:
keybinds, displays, look and feel, animations, the bar, the lock screen and the
idle timeline, tweaks, wallpapers, the launcher, and bundles that carry a whole
setup to another machine. Every function states what it returns, and Verus
proves it.

## Layout

- `src/` is the library. Nothing in it reads a file, runs a command or asks the
  network: what a function needs of the outside it takes as an argument, and what
  is to be done it hands back, as the text of a file, an edit, a command or a
  plan.
  - `text`, `split`, `number`, `decimal`, `order`, `paths`: texts, numbers, sorted
    lists and paths.
  - `configfs`: editors that leave every other byte as it is. `managed` keeps a
    block between two markers, `hyprlang` edits Hyprland's config lines, and
    `jsonc` edits JSON with comments.
  - `toml`: documents of `toml_edit`. What is relied on of that crate is said at
    each call.
  - `engine`, `error`: edits, plans and commands, and the one error type.
  - One module for each thing that is configured: `animations`, `coverage`,
    `keybinds`, `lockidle`, `looknfeel`, `monitors`, `nova`, `rice`,
    `scrolloverview`, `targets`, `tweaks`, `wallhaven`, `waybar`.
- `tests/` runs the library on concrete values.
- `app/` is ordinary Rust around the library: files, processes, the environment,
  HTTP, and JSON through serde.

## Laws

What holds across several functions is stated as public proof functions whose
names begin with `law_`: what was written reads back, what was turned on can be
turned off, a second write changes nothing, and the user's own lines stay.

## Numbers

Rates, scales and opacities are held in millionths, so that they are exact.
Where they are shown with two digits they round as the nearest double would.
