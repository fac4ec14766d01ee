# Base Camp

A browser for amateur radio spots: activations of parks (POTA, WWFF) and summits (SOTA) and the
spots of a DX cluster, in one sorted and filtered list, with tuning and logging by way of N3FJP's
Amateur Contact Log.

- `src/` is the library: everything that is decided or computed, with contracts that Verus proves.
- `app/` is the program around it: windows, sockets, HTTP, files, and the arithmetic on the globe.
- `tests/` runs the library on concrete values.

| Module | What it holds |
|---|---|
| `text`, `keyset`, `digits` | texts, sets of texts, decimal digits |
| `number`, `reading` | 64-bit floating-point values as whole numbers; reading them from text |
| `clock`, `age` | moments in time, by way of chrono; how old a spot is |
| `band`, `settled`, `spot`, `grid` | bands and modes; that megahertz stay megahertz; spots of each source; grid squares |
| `dxline`, `dxcluster`, `dxlink` | lines of a DX cluster; its nodes and cached spots; the link to it |
| `xml`, `n3fjp`, `listener`, `lookup` | the log's records and commands; listening to it; asking it |
| `state`, `options`, `filter`, `order` | the list of spots; what there is to choose; what is shown, and in which order |
| `hunter`, `select`, `keys`, `view`, `app`, `settings` | the session; the selected row; what the keys do; how spots are shown; the application |
