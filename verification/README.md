# hyperdir

A filesystem directory namespace on an object store: directories and files
under UUID-named prefixes, changes committed as small scatter objects and
folded into a hash index later, two-phase deletion with retention, hard links,
renames with crash recovery, and advisory locks.

`src/` is the library, written and proved in Verus. It holds formats, rules and
decisions; it makes no request to the store.

| module | what it is about |
| --- | --- |
| `layout` | keys and URIs of directories, files and their sidecar objects |
| `scatter`, `store` | scatter objects: keys, listings, which change of a name counts |
| `ondisk`, `index` | directory entries, and the hash index with open addressing |
| `file`, `compact` | listing, resolving one name, folding changes into the index |
| `tombstone`, `gc` | deletion, retention, garbage collection, orphans |
| `links` | link counts, hard links, modes |
| `intent`, `rename` | renames, their intents, and recovery |
| `lease`, `lock` | the compactor's lease, advisory byte-range locks |
| `interceptor` | what an inode flush commits in the parent directory |
| `ident`, `clock`, `text`, `bytes`, `blockptr`, `error` | what the others share |
| `outside` | what is believed of other crates and of std, without proof |

Proof functions whose names begin with `law_` state what holds across several
functions.

`app/` is the part that talks to S3 and to hyperfile. `tests/` runs the library
with the real crates.
