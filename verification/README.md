# sqe-core

A compiler for SQE questionnaire sources, verified with Verus.

A source is a list of lines. Blank lines and `//` comments are skipped; a
line starting with `title`, `@p`, `import`, `insert`, `choice`, `html`, `js`
or `css` is a directive. Question directives take a brace-delimited block
that may span lines; braces inside quotes, and characters after a backslash,
do not count.

Layout:

- `src/text.rs` – character-level helpers (Unicode white space, trimming,
  splitting, searching) with their specifications.
- `src/block.rs` – the line cursor, the brace-block reader and the
  marker-delimited block reader; `src/block_laws.rs` proves what a block
  read returns.
- `src/compile.rs` – the directive compiler and its specification as a
  state machine over lines; `src/compile_laws.rs` proves how titles, pages
  and questions interact.
- `src/idle.rs` – the editor's decisions: the live-preview switch, the
  report on a compiler run, and the search for the page to preview.
- `app/` – the command line program (file reading, printing) and the GTK
  editor.
- `tests/` – tests on concrete inputs.

What this program does not do:

- Questions keep the text of their block (and a choice its identifier);
  turning that text into choices, inputs, HTML, scripts or styles, and
  writing the HTML pages into the output directory, belong to parts that
  are not in this program. The command line program therefore prints the
  compiled entries and writes no pages, and the editor's preview finds no
  page to show.
- The command line program and the editor are one binary: started under
  the name `sqe_idle` it opens the editor, which runs the compiler as
  `sqe-core`; install the binary under both names.
