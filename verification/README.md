# software_manager

A Windows software manager: it lists the installed programs recorded in the
registry, shows the file tree of a program's install directory, finds the
Start-menu and desktop shortcuts that point into it, and starts its uninstaller.

`src/` is the verified library (Verus):

- `lnk` — the shell-link (`.lnk`) parser: header and class-identifier checks,
  the target ID list, the LinkInfo block and its code-page path strings, and a
  UTF-16LE string reader.
- `shortcuts` — matching shortcut targets to an install location.
- `files` — the install-directory tree built from a depth-first walk, with its
  entry limit; paths are compared without trailing separators.
- `registry` — merging uninstall entries by display name and ordering them by
  lowercased name.
- `app` — the window's state and decisions (selection, search filter, refresh,
  uninstall command, list and tree labels).
- `text` — character-level string operations.

`app/` is the program around it: the egui/eframe window, the registry reads
(winreg), the directory walk (walkdir), the shortcut-file reads and the
uninstall process.
