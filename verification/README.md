# wizctl

Control WiZ smart bulbs over the local network: a command line, a compact
panel popover, a full studio window and an XFCE Genmon status block.

The project is split in two.

- `src/` is the library, written in Verus and verified: every parser
  (colors, brightness, Kelvin temperatures, scenes, bulb addresses, the
  command line), the persisted state and its repair, the `setPilot`
  parameters sent for each command, how a bulb report is folded into the
  state, the worker's coalescing, re-poll schedule and poll reports, the
  popover's focus and dismissal, median-cut palette
  extraction, and the text of the status report, scene list, WiZclick
  listing and Genmon block. Each public function states its result in its
  contract (median cut up to the order in which an unstable sort leaves
  pixels of equal key); the laws of the library (round trips, idempotence, what a burst
  of commands sends) are public proof functions.
- `app/` is the program around it: UDP and JSON, the state file,
  environment variables, the floating-point reading of brightness
  percentages, the floating-point color conversions (Kelvin
  curve, HSV, the RGB/white LED split), image decoding, the worker thread and
  the egui windows.

`tests/` exercises the library on concrete values.

Modules of the library:

| module    | contents |
|-----------|----------|
| `text`    | character classes, trimming, case folding, splitting, decimal integers, `String`/`Vec<char>` conversions |
| `colors`  | scene and color tables, `parse_color`, `parse_brightness`, `parse_kelvin`, `parse_scene`, `rgb_to_hex` |
| `state`   | the state model, address validation, sanitising, the recent-color list |
| `bulb`    | bulb reports, `setPilot` parameters, WiZclick favorites |
| `worker`  | worker commands and events, coalescing, re-poll schedule, report adoption |
| `palette` | supported file types, thumbnail sizing, sampling, median cut, ranking |
| `genmon`  | the Genmon XML block |
| `report`  | the command line's status report and listings |
| `cli`     | command-line parsing |
| `popover` | the popover's per-frame focus and dismissal decisions |
