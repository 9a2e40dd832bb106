# FlossKeeper

FlossKeeper tracks a DMC floss stash: bobbins and skeins per colour, notes,
missing colours, shopping lists and a pattern planner.  DMC White and Blanc
are one colour, kept and shown as `Blanc / White`; B5200 Snow White stays
separate.

The library under `src/` is verified with Verus:

- `catalog` reads the colour list (CSV text) and orders it by code;
- `inventory` holds what is owned, keyed by canonical code;
- `collection` writes and reads the plain-text collection file, with the
  proof that reading a saved file gives the saved entries back;
- `app` holds the collection state, the counts and the filters;
- `reports` builds the exported texts (TSV, shopping list, CSV);
- `pattern` looks colours up by typed codes and builds the planner report;
- `backup` builds the JSON backup document and checks a backup before it
  is restored (`json` holds the JSON values it is built from);
- `paths` says where the files live;
- `text`, `split`, `numbers` and `order` are the string helpers they share.

`app/` is the egui window around the library: drawing, file dialogs and the
reading and writing of files.
