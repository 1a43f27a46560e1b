# fatty

The verified core of the fatty shell and its companion tools.

`src/` is the library, written in Verus: every function carries a contract
that Verus proves, and the laws that tie functions together are stated as
public proof functions (their names begin with `law_`). It holds

- the command line editor: the grapheme-based text value, the cursor, the
  editor, what each key does in each mode, and the window's modal controller
  (`text_input`, `key_input`, `control`);
- the terminal grid that shows a command's output, and what its view sends
  for a key press (`term`, `tty_keys`);
- the structured data that tools exchange, brandywine: its tokens and
  values, the streaming reader of the wire format, whole-value decoding and
  encoding, the proof that an encoding decodes back, and the proof that the
  streaming reader reads a written value whole and its tokens gather back
  to it (`bwine`, `wire`, `codec`, `roundtrip`, `stream_back`, `utf8`);
- the bolger markup that tools print, its writer, reader and document parser
  (`bolger`, `bolger_doc`, `bolger_ui`);
- the shell languages' lexical rules and syntax trees, the prototype's
  compiler and machine, the Marish compiler, the fatty machine with
  variables, indexing and operators (stepped by its caller, who does the
  process work it asks for), the decisions of its `where` pipeline stage,
  word expansion, command search and exit statuses (`fatty_syntax`,
  `marish_syntax`, `shell_syntax`, `program`, `marish_compiler`,
  `fatty_vm`, `where_filter`, `expansion`, `search_path`, `exit_status`);
- the logic of the tools: completion of paths and of the tools' flags,
  listing modes, process lines,
  selection paths, disk usage, the `max` tool and copying (`completion`,
  `listing`, `procs`, `select`, `sizes`, `top_rows`, `copying`, with
  `numbers`, `pieces`, `colors`, `unicode`).

Calls into unicode-segmentation and minicbor stand behind small trusted
wrappers whose doc comments say what their contracts claim.

`app/` is ordinary Rust around the library: the command-line tools (with
`df` and the sizes shown to people, which work in floating point), the file
system and process work, the glob expansion, the loop that steps the fatty
machine and does the outside work it asks for, and the escape-sequence
parser that feeds the terminal grid. `tests/` exercises the library from outside.
