# Categorax

A terminal tool that gives files and folders tags and a category. What is known of the things in a
folder stands in a small `.categorax/tags.json` file beside them, so it is easy to copy, to back up
and to read.

- `src/` is the library, verified with Verus: labels and how they are typed, records and stores,
  the selection of targets, changes and how they go through the stores, suggestions, the listing
  and grouping of a whole tree, the pages that are shown, and the course of the dialogues. It does
  no input or output.
- `app/` is the program around it: the command line, the file system, the terminal, the JSON form of
  a store, and the Windows registry.
- `tests/` runs the library on concrete values.

The library takes what came of an action (a read, a lookup, an answer) as a value, and gives what is
to be done or shown as a value. A public proof function whose name begins with `law_` states
something that holds of several functions together, such as that a change reaches the selected
things once and nothing else.
