# opencv-ui-cli

Finds UI components in a picture of a design, marks where they are, and puts the
design together again from them.

- `src/` is the library, written in Verus. Every function has a contract, and
  every contract but two is proved. Numbers that are not whole are held as binary64 bit
  patterns (`double`, `arithmetic`), so that scores, thresholds and confidences
  can be stated and proved exactly.
- `app/` is the program around it: the command line, picture files and template
  scores by OpenCV, the TOML result, and the commands that run the detector.
- `tests/` runs the library, and holds its numbers against those of the machine.

| module | what it holds |
| --- | --- |
| `rounding`, `double`, `arithmetic`, `exact` | binary64 numbers, and where they are exact |
| `picture`, `alpha` | pictures, masks, rectangles |
| `variance`, `matching`, `overlap`, `ranking` | from raw scores to matches |
| `descent`, `stepping` | lowering the threshold until there is a match |
| `masking`, `passes`, `entry` | the two passes, and what is reported of them |
| `svg`, `overlay`, `reconstruct`, `text` | drawing what was found |
| `files` | which files are components |
| `yolo`, `venv`, `region` | the detector next to template matching |

What the library takes on trust are the contracts of those two functions: `rasterize` in `overlay`
(drawing SVG text, by `usvg` and `resvg`) and `lowercase` in `files`.
