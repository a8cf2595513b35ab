# Ardon-R2

The core of a statistical computing system in the manner of R, written in Verus:
every function of the library carries a contract and is proved against it, but
for the trusted wrappers around calls of other crates and of std.

## Numbers

A double is `Real`, its sixty-four bits. Sign, order, classification and the
conversions from integers are defined on the bits. The other operations of
floating-point arithmetic are asked of the caller, who hands over a function once
(`Fpu`); contracts state which operations are applied to which numbers, and in
which order. Texts of numbers are asked for in the same way.

## Modules of `src/`

| Modules | Subject |
|---|---|
| `double`, `text`, `sort`, `value`, `bytes`, `grid` | numbers, texts, stable sorting, values of the language, byte codes, matrices |
| `kernel`, `kernel_*` | reductions, maps, scans, selection, rolling windows, tabulation and distances, one after the other or on a thread pool |
| `linalg`, `linalg_solve` | vector and matrix operations, linear systems, least squares |
| `stats_*`, `grouping` | normal distribution, Hotelling's tests, variance analysis of several variables |
| `ml_*`, `report_text` | trees, forests, boosting, clusters, neighbours, classes, components, cross-validation, and their reports |
| `ordering`, `frames`, `csv`, `r2d`, `r2d_laws` | sort orders, rows and columns of data frames, two file formats |
| `device`, `overlays`, `drawing`, `plots` | drawings as SVG documents |
| `console`, `editor`, `plotpane`, `settings`, `icon`, `session` | the state of the desktop program |
| `repl`, `line_editor` | the state of the prompt |
| `memory`, `pkg`, `paths` | pools of buffers, packages, paths |
| `jit`, `jit_*` | the compiler from closures to loops, with and without vector lanes, and what its code computes |

What relates several functions stands in proof functions whose names begin with
`law_`.

## Around the library

`app/` holds what meets the outside world: files, windows, dialogs, the terminal,
machine code and rasterised pictures. The interpreter and the numerical routines
that the programs need are traits there (`Interpreter`, `Numerics`).

`tests/` runs the library on concrete values.
