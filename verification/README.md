# blog

A small blog index generator, verified with Verus.

Articles begin with a header between two `---` lines (`Category:`, `title:`,
`tags:`, `date:`). The library reads those headers line by line, fills in
defaults, and renders the category and tag tables of contents of the README.
It also holds the templates offered for new texts and decides, from what the
editor gave back, which file a new text goes to and what is appended there.

- `src/lib.rs`: articles, header reading, paths under the blog directory,
  tables of contents and sections, the rendered index.
- `src/category.rs`: the category table and sections; templates, edited
  notes and where new texts are filed.
- `src/tags.rs`: the tag table and sections.
- `src/text.rs`: trimming, splitting, lower-casing and decimal numbers.
- `app/main.rs`: the command line, files, the editor and the clock.
