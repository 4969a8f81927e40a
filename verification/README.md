# reapr

A desktop manager for a watch list of systemd units. The library in `src/`
holds its decisions, proved with Verus:

- `text`: Unicode white space, trimming, ASCII case folding, searching and
  code-point order of texts;
- `process`: list entries, the normal form of unit names, and adding to and
  removing from the managed list (kept sorted by lower-case name);
- `service`: what the output of a `systemctl` run means for a unit;
- `laws`: what holds across these functions.

`app/` runs the GTK window, the list file and `systemctl` around them.
