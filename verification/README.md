# mind-store

`mind` keeps ideas, todos and notes as flat TOML files in a Git repository
(`~/.mind-store`, or `$MIND_STORE_DIR`), and lists them as virtual trees built
from their metadata.

The logic is a library verified with Verus; the program around it reads
and writes files, runs git and extensions, puts the questions, and prints
(with colours) what the library lays out.

- `src/` — the verified library (`mind_store`):
  - `text.rs`: character-level string helpers (`trim`, `split`, `join`,
    ordering, sorting) over the `Seq<char>` view of strings;
  - `time.rs`: dates and instants as plain values, read with chrono;
  - `entry.rs`: entries, their kinds, priorities and statuses, and how
    descriptions, tags and namespaces are normalised, with the laws those
    normalisations obey;
  - `store.rs`: slugs, identifiers (`namespace/slug`), entry paths and the
    selection of entry files;
  - `git.rs`: the git procedures as step functions (which command next,
    given the previous reply);
  - `extensions.rs`: where extensions are configured and which run;
  - `cli.rs`: the command line as plain values;
  - `commands/`: the logic of `ls` (filters, grouping, the tree, its JSON
    and text renderings), `find`, `grep`, `insert`, `edit` and `git`; the
    interactive `insert` and `edit` are step functions that say which
    question to put next and what each answer changes.
- `tests/` — tests of the library on concrete values.
- `app/` — the `mind` program: argument parsing, files, prompts, git and
  extension processes, TOML and JSON.
