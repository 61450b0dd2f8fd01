# applauncher

A small application launcher for Linux desktops. It reads the freedesktop
desktop entries under the usual `applications` directories, lists the
applications in a window, filters them by the typed name and starts the one
chosen.

The logic is a library verified with Verus (`src/`):

- `text`: character-sequence operations (trimming, splitting, prefixes) with
  their specifications.
- `desktop_file`: reading a desktop file's text into its entry, or the reason
  it is refused.
- `launch_cmd`: turning an `Exec=` value into a command line, and looking a
  program up in the directories of `PATH`.
- `platform_layer`: items, their icons, loading, searching and launching.
- `ui`: the window's state and how it reacts to the search field, the mouse
  and the keys.

`app/` is the program around it: it lists and reads the files, asks the icon
theme (`freedesktop-icon`) about the icon names that the library hands it,
reads `PATH`, starts processes and draws the window with `eframe`/`egui`.
