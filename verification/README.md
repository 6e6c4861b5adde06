# rwr

Structural search and rewrite for Ruby: find code by its shape, rewrite only
what matches, and refuse where a change cannot be made safely.

The library in `src/` is written in Verus. Its functions carry `requires` /
`ensures` contracts over mathematical models (`Seq`, `Map`, spec functions),
and the laws the tool promises stand as public proof functions named
`law_*`. Calls into outside crates (Prism's parser, `memchr`, parts of `std`)
go through a few trusted wrappers whose doc comments say what they claim.

Layout:

- `src/prepare.rs`, `src/metavar.rs`: metavariables and the placeholder Ruby a
  pattern is parsed as.
- `src/compare.rs`, `src/structure.rs`: structural equality and matching of
  syntax nodes, with sequence placeholders and repeated captures.
- `src/prefilter.rs`: the literals a file must hold before it is parsed.
- `src/rewrite/`: the minimal edits that turn a match into its template,
  planning edits (ordered, disjoint, refusals on overlap), rendering
  templates, applying edits.
- `src/scan.rs`: a rule set applied to one source: prefilter, walk, verdict,
  the refusal of a template that brings in a name already local at a site,
  plan, apply, the refusal of a result that no longer parses or whose sites
  no longer read as the template; and what a set that moves names leaves
  unaccounted for.
- `src/erb.rs`: the Ruby inside ERB templates and the map back.
- `src/matcher.rs`, `src/verdict.rs`: what a rule's `where:` entries and
  scope decide of a match, the class a receiver denotes where its syntax
  tells it, the walk that places each match in its class, and what a rule
  set flags in one source.
- `src/hierarchy.rs`, `src/residue.rs`: class links, the search for the part
  of the hierarchy a rule set needs (which files to read, round by round,
  until nothing new is learned), and what a rule could not account for: the
  names it is anchored on and every occurrence left over.
- `src/rule.rs`, `src/load.rs`, `src/schema.rs`: rules, fixtures, packs.
- `src/diff.rs`, `src/source.rs`, `src/cli.rs`, `src/sarif.rs`: line
  restrictions, files and paths, and the decisions behind the command line.

`app/` is the command itself: argument parsing, files, git, output, and the
conversion of Prism's syntax tree into the library's nodes. The library
decides whether a source parses, but the tree it scans is converted in
`app/` and handed over; when a rule rewrites a source, `app/` parses the
result again and the scan goes on after that rule. A rule with `where:`
entries on a pattern with a sequence placeholder is not scanned, since a
declined binding is not retried with another; receivers held in local
variables, and return types from signatures, are not resolved. `tests/`
runs the library on concrete values.
