# CVVC

Version control in the format of Git. The library under `src/` holds the data formats and the
decisions, written in Verus with contracts that are proved; `app/` holds the program `cv`, which
reads and writes files, talks to servers and prints.

| Module | What it holds |
| --- | --- |
| `text`, `numerals`, `encoding`, `sorting` | texts, numbers, UTF-8 and stable sorting |
| `interop` | calls into other crates, each with the contract that is relied on |
| `moments`, `helpers` | moments in time, paths, names of references |
| `index` | the index: entries, the file format, adding and removing |
| `objects` | blobs, commits, trees and tags, their stored forms, and changes between objects |
| `stores` | branches, tags and references; stores of objects and references; loose objects, packs, packed references |
| `repo` | finding and reading objects, walking through commits, trees, references, checkouts |
| `ref_log` | what references led to over time |
| `ignore`, `config`, `remotes` | ignore rules, settings, and the remotes that they name |
| `net` | the lines of the network protocol, requests, answers, and the negotiation of a pack |
| `cli`, `output` | what the commands do and print |

A store of objects or references is anything that implements the traits in `stores::backends`;
what is proved of a repository is proved from their contracts. `stores::tables` implements them
in memory.

The laws that hold across functions are public proof functions whose names start with `theorem_`:
what is written is read back (objects, trees, commits, tags, the index, ref logs, references,
packet lines), descent of commits is reflexive and transitive, each commit comes once in a walk,
which has one order only, and once in the drawing of a history, and following tags ends at an
object that is no tag, among others.
