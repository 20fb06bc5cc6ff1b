# Pharos

A directory of people and machines, spoken to in the Ph protocol. The library
in `src/` holds what the directory decides; Verus proves it against its
contracts. The programs in `app/` do the input and output.

| Module | What it holds |
| --- | --- |
| `text`, `numbers`, `names` | texts as sequences of characters, decimal numbers, sorted names |
| `pattern`, `matching`, `address`, `selection` | which values, addresses and records a query means |
| `record`, `field_map`, `error`, `clock` | records, their fields, and what can go wrong |
| `store`, `storage` | the effect of each operation, and the directory in memory |
| `file_storage`, `ldap` | directories in files and at LDAP servers |
| `session`, `options`, `reply`, `dispatch`, `config` | what the server answers and does for each command |
| `wire`, `client`, `signing`, `turns` | what a client sends, how it reads an answer, and what is done next |
| `console` | the key console |
| `subnet`, `scan` | looking for machines in a network |
| `laws`, `exchange` | what holds across operations, and between server and client |

A directory is modelled as a sequence of entries and the next identifier. The
functions of `store` say what each operation makes of that model;
`MemoryStorage` and `FileStorage` are proved to do exactly that. A session's
answers are functions of the session and of what the directory returned. What
is written to a file survives a restart: `file_storage` proves that every write
leaves records that are read back as they were.

Calls into other crates stand behind small functions whose contracts are
believed: in `text`, `clock`, `signing`, `console` and `subnet`.
