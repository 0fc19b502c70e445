# spoor

Instant file-name search for Linux. A daemon keeps an index of directory trees
current through fanotify; a command line, a GTK window and a KRunner plugin
query it over a Unix socket.

The library under `src/` holds everything that is decided and computed, as
Verus code with proved contracts. The program under `app/` is what is left:
reading folders, talking to the kernel, sockets, threads and windows.

## The library

| modules | |
|---|---|
| `index`, `tree`, `maintain`, `graft`, `updates`, `paths` | the arena of names, what changes it, what those changes keep, and the way to an entry and back |
| `postings`, `trigram`, `kmp`, `fold`, `ids` | posting lists, trigrams, the path automaton, case folding |
| `bytes`, `text`, `split`, `component`, `digest` | byte strings, text, cutting, paths by their components |
| `terms`, `options`, `search`, `anchored`, `multi`, `matcher`, `lookup` | searching |
| `exact`, `laws`, `relations` | a search finds exactly what matches, however it is carried out, and how the answers of two searches relate |
| `wire`, `persist` | snapshots |
| `config`, `place`, `checks` | the settings file |
| `walk`, `watch`, `mark`, `live`, `service`, `upkeep` | walks, kernel events, and keeping an index in step with them |
| `catalog`, `whole`, `protocol`, `framing` | several folders, and the socket protocol |
| `runs`, `args`, `window`, `selection`, `krunner` | the front ends |

A search is stated once, over paths and names: an entry is listed if and only
if it is alive, its name or path holds every word, and the options accept it.
That the trigram lists, the anchored path search and the automaton all come to
the same answer is proved in `laws`.

Names are raw bytes throughout. What is taken from outside without proof is
marked `external_body` or `assume_specification`, each with a comment that says
what is claimed: the `regex` crate's matching, and a few functions of the
standard library on characters and text.
