# konnect_core

The decisions behind the Konnect tools for KiCad projects: what a tool reports,
refuses or writes, given what it has read. The library is written in Verus, and
every function states its result in a contract that Verus proves.

- `src/` is the library.
  - Schematics: `schematic`, `geometry`, `net_graph`, `spatial_index`,
    `sch_analysis`, `sch_queries`, `orphans`, `sch_export`, `wire_text`,
    `power_symbols`, `annotate`.
  - Sheets: `hierarchy`, `sch_hierarchy`, `root_uuid`.
  - Boards: `board_edit`, `board_items`, `board_objects`, `board_info`,
    `board_gate`, `live_update`, `pcb_routing`, `netclasses`, `autorouting`.
  - Reviews and production: `audits`, `capacitance`, `bom_health`, `dfm`,
    `design_review`, `manufacturing`, `cost`, `cli`, `reports`, `artifacts`, `pcb_export`.
  - Shared: `text`, `blocks`, `json`, `sexp`, `paths`, `revision`, `seqs`, `selections`.
- `tests/` runs it on concrete values.
- `app/` is the tools themselves: files, programs and the KiCad that is running,
  through services that the host of the tools provides.

Coordinates are whole nanometres, and positions in a text count characters. A
numeral that passes through unchanged is kept as its text.
