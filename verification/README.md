# prism

A colour picker for the terminal. Two colours, foreground and background, are edited with sliders
for red, green, blue, hue, saturation and value, or typed as a hex code; the screen shows the pair
on sample text, with its WCAG contrast ratio.

`src/` is the library, verified with Verus:

| module | what it holds |
| --- | --- |
| `single` | single-precision arithmetic on integers, bit for bit |
| `rounding`, `hue`, `circle` | what is proved of that arithmetic and of the way through HSV and back |
| `text`, `figures` | texts of integers and of single-precision numbers |
| `color`, `contrast` | colours, hex codes, HSV, contrast and its grades |
| `lightness`, `highlight` | what is proved of luminance, and of the focus on the screen |
| `ansi`, `render` | escape sequences and the screen |
| `app`, `keys`, `args`, `report` | the state, the keys, the command line, and what is printed at the end |
| `laws` | what holds of the library as a whole |

`app/` is the program around it: terminal input and output, the clipboard, and the one power
function that contrast needs, which is handed to the library as a table.

Hue, saturation and value go through `single::Single`, so that each of them is proved to be the
number that correctly rounded single-precision arithmetic gives. The contrast ratio is proved to be
that of the powers in the table.
