# DiskScope

A disk-usage analyzer for the GNOME desktop whose logic is verified with Verus.

- `src/` is the library: everything that decides or computes, with contracts that Verus
  proves. It reads no disk and draws nothing. The cancel flag alone has no contract on
  what it holds, as any holder of a clone can set it at any time; the functions that act
  on it say what they do for each reading.
- `app/` is the GTK4/libadwaita front-end: it walks the disk, hands what it read to the
  library, and draws the pages that come back.
- `tests/` runs the library on concrete inputs.

| Module | What it holds |
|--------|---------------|
| `scan`, `tree`, `query` | From what a walk has read to a sized tree; searching it, taking entries out of it. |
| `category` | File categories, their totals, their largest files. |
| `reclaim`, `notes` | Space that can be reclaimed, and what removing it means. |
| `disk`, `format` | Capacity of a filesystem; sizes and counts as text. |
| `navigate`, `state`, `clearing`, `selection` | What the user is looking at and how every event changes it. |
| `pages`, `rows`, `dialogs` | What is shown, asked and told. |
| `order`, `text`, `path` | Stable sorting, text, and Unix paths. |

Beside the contracts, public proof functions state what holds of the library as a
whole: that every inode counts once, that the totals of the categories make up the size
of the tree, that removing an entry takes that entry and nothing else, that no artifact
is missed or offered twice, that a rescan returns to the folder that was shown.

What is trusted and not proved is marked `external_body` or `assume_specification`, with
a comment that says what is claimed of the outside function.
