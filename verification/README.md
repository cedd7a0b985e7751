# Clipboard History

A clipboard history for a Wayland desktop. The library in `src/` holds everything that
the program decides and computes, each function with a contract that Verus proves; the
program in `app/` talks to the compositor, the tray, the file system and the user
interface.

| Module | What it holds |
| --- | --- |
| `text` | whitespace, lines, numerals and UTF-8 |
| `single`, `decimal`, `level`, `size` | floating-point results in integer arithmetic: color levels and sizes |
| `color`, `letter_case` | colors as text and as native data |
| `files` | lists of files, their names and labels |
| `layout`, `picture` | images, their formats, previews and labels |
| `offers` | the offers of other programs, and which media type is taken |
| `update` | what the clipboard holds, captured from an offer or read from a file |
| `copying` | putting content on the clipboard, and serving it |
| `history` | recording updates and activating items |
| `rows` | how the history is shown |
| `window` | the state machine of the window |
| `pixels`, `tray` | the tray icon and its menu |
| `bin_management` | installing, removing and starting the program |

Numbers stand for the windows, widgets and images of the user interface, and bytes for
paths. Where a function has a `requires`, its callers in `app/` test it first, or call the
function beside it that does: `capture_if_possible` and `read_file_if_possible`.

SVG documents are drawn in `app/`, at the sizes that `layout` gives; the library takes
the pixels from there.
