# openlogi_inventory

The device list of a HID++ configuration tool, and the decisions of the watcher
that keeps it fresh, verified with Verus.

- `src/` is the library. The device list is the union of what a probe found and
  what the configuration remembers, in an order that does not depend on HID
  enumeration. The watcher is a state machine: its driver performs an action and
  hands back what came of it.
- `app/` is the host side: the polling thread with its tokio runtime and channel,
  and the inputs that come from the process environment.
- `tests/` runs the library on concrete values.

What the host supplies:

- the probe's findings, with the config key and the resolved asset of each model;
- the remembered identities, in the order in which the configuration lists them;
- a function that gives a device's stable identity by its route, slot, serial
  number and unit id, as a byte string whose lexicographic order is the order of
  the identities.

Taken on trust, from std alone:

- `char::is_whitespace` tells the Unicode `White_Space` property.
- `char::is_lowercase`, `char::to_uppercase` and `str::to_lowercase` do on ASCII
  what their names say, letter by letter. On other text they are functions of
  their argument; nothing further is claimed of them there.
