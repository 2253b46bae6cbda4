# LX plugins

The rules behind a family of audio plugins, written in Verus: the functions of
the library state what they do, and the statements are proved. Four functions
from outside are believed instead: `relay_slot_active` of the analysis crate, and
`String::push`, `str::to_lowercase` and `char::is_alphanumeric` of the standard
library.

- **Aether**, a headphone corrector: AutoEQ profiles, preset files, the presets
  of a vault and what the editor shows of them.
- **Equilibrium**, a spectral balancer: preset files, snapshots, and what is
  decided from block to block around the filters.
- **Lucent**, an analyzer: spectral peaks, overtones, resonances, masking, the
  findings that are held over a while, and the panels, curves and snapshots that
  are made of them.
- **Lucent Relay**: how relays and analyzers find each other.
- **Meridian**, a channel strip: which filters are made anew, and its presets.

## Layout

`src/` is the library. Texts are sequences of characters (`text`, `number`,
`document`). A number that a file holds stays as it is written, and the library
says which texts are numbers. A number that the logic compares is held as the bit
pattern of a single-precision float (`single`), in the order of the numbers that
the patterns stand for. Public proof functions named `law_…` state what holds
across functions: that a preset which is written is read back, that the strongest
findings are kept, that a silent track masks nothing, and so on.

`tests/` runs the library on concrete values.

`app/` holds the plugins themselves: their parameters, the signal paths, which
are floating-point arithmetic, their editors and their files. The vault of notes,
the hub through which relays reach analyzers and the toolkit that draws the
editors are provided from outside (`app/services.rs`).
