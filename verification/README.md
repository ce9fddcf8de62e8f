# aw-fm

A keyboard-driven file manager whose decisions are written and proved in Verus:
what tabs show and in which order, how directories and searches follow the file
system, how panes are split and sessions restored, which names are free, what an
operation on files does next and how it is undone, what a command, a custom
action or a clipboard means.

- `src/` is the library. It does no I/O: it takes what was read and says what
  to do.
- `app/` reads and writes: directories, the database, scripts, and the lines
  that the user types.
- `tests/` runs the library on concrete values.

## Where to start

| Module | What it holds |
| --- | --- |
| `path`, `text`, `strings`, `order`, `natsort`, `calendar` | paths, texts, dates, and how they compare |
| `entry`, `settings`, `contents`, `rows`, `filter` | entries and lists of them in order |
| `objects`, `thumbs` | entries in use and their thumbnails |
| `flat`, `search`, `flat_tab`, `cache`, `existing`, `opened`, `places`, `loading` | directories and searches that are open |
| `tab`, `nav`, `pane`, `blocks`, `listing`, `list`, `session`, `regroup`, `saved_tabs` | tabs, their history, groups of panes, sessions |
| `operations`, `progress`, `names` | operations on files |
| `actions`, `menu`, `commands`, `target`, `config`, `patterns` | what can be configured, and which tab a command is for |
| `applications`, `clipboard`, `properties`, `chooser`, `dbus`, `status`, `selection`, `window` | what dialogs and bars show |
| `database`, `logger`, `res` | what is stored and logged |
| `collections` | maps and sets of other crates, with what is believed of them |

Contracts that are believed rather than proved stand on functions marked
`#[verifier::external_body]`; each says which outside function it describes.
