# llvm_fabric

A dataflow "fabric" IR: regions of cells, wires as use edges, a slab of
cells under stable ids, and an append-only history of machine-applicable
edits. The library is written in Verus; every function in `src/` carries a
contract and is proved against it.

Layout of `src/`:

- `id`, `ty`, `cell`: ids, types, constants, cell kinds, with their text.
- `fabric`, `usetables`: the fabric and its maintained use/pred/succ
  tables; every sanctioned edit keeps the tables equal to what the content
  derives.
- `text`, `lex`, `chars`, `dec`: the canonical text format, its printer and
  its parser; `roundscan`, `roundparse`, `roundbuild`, `roundtrip` prove
  that printing then parsing gives the fabric back.
- `diff`, `replay`, `conserve`, `sign`: edit records, the hash-chained
  progress ledger, replay of a history, and the conservation law.
- `decay`: death certificates, the live (demanded) closure, demand paths,
  certificate verification, classification.
- `ctrl`, `region`: control edges and closures, reachability, region
  addition, removal and grafting.
- `prov`, `fullprov`: the data provenance walk of a value and its check,
  the full walk that adds the controlling terminators at the root, and
  transform history per cell.
- `program`: named function fabrics and the `fabric v1` text format.
- `dce`, `constfold`, `pipeline`: the passes (dead code elimination, its
  certifying decay variant, constant folding with its fold table) and the
  pipeline that runs them in order, audits each record and appends it to
  a history.
- `bench`, `fuzz`, `ga`, `semmut`, `manager`, `measure`, `order`, `tally`:
  toy program shapes, the seeded random number generator with the fabric
  generator and the corruption mutations, the semantic input mutations
  and the checked-arithmetic dataflow evaluator, statistics records with keyed tallies, sorting.

`app/` is the command line (`version`, `print FILE`, `prov FILE CELL`,
`pipeline FILE`, `replay FILE`). `tests/` exercises the library with
concrete values.
