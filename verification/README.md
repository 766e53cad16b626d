# journal

The rules of an org-mode journal: where it lies and how an entry begins, the states of a task, its
scheduled dates and deadlines and how it comes back, the agenda with its filters and reminders,
notes from templates, tags and their completion, and the lists that a user picks from.

- `src/` is the library. It works on plain values: texts, dates, syntax nodes, lists of files. Every
  function has a contract that Verus proves. What comes from `chrono`, `regex`, `shellexpand` and
  the clock goes through a few small functions whose contracts say what is taken on trust.
- `tests/` runs the library on concrete values.
- `app/` joins the library to an editor: it reads and writes files, turns `tree-sitter` nodes into
  plain ones, and does what the library decides through the `Editor` and `Workspace` traits.

Positions in a buffer are byte offsets; durations of reminders are seconds; paths have slashes
between their components, but where a journal lies is told in the style of the system.

| Module | What it holds |
| --- | --- |
| `text`, `number`, `order`, `buffer`, `paths` | texts, decimal numbers, sorted lists, edits, paths |
| `calendar`, `repeater` | dates and how they are written; when a task comes back |
| `patterns`, `planning` | regular expressions; planning lines under a headline |
| `scheduling`, `date_picker`, `recurring`, `todo` | planning a task, moving it on, its states |
| `kept_lines` | what planning a task keeps of its lines |
| `agenda`, `agenda_text` | the entries of org files, and what the text says of them |
| `agenda_view`, `notification` | the filters and reminders of an agenda |
| `entry`, `settings`, `zen`, `outline` | new entries, settings, the mode for writing, folding |
| `capture`, `tags`, `picker`, `label`, `syntax` | notes, tags, lists to pick from, labels, nodes |
