# grizol

A client of the Syncthing block exchange protocol that keeps what it receives on this
device, on `rclone` storage backends, or on both, and shows it as a file system.

The logic is verified with Verus and stands in `src/`. It works on plain values: bytes that
came from a peer, rows that came from a database, names that came from a file system. Where
something has to be done in between, a flow decides what is next, given what came of the
last step.

| Module | What it holds |
| --- | --- |
| `wire`, `syncthing` | messages as protocol buffers |
| `bep_data_parser`, `framing` | messages in the data of a connection |
| `device_id`, `pem`, `connectivity` | who takes part |
| `config`, `config_text` | the configuration, and how it is read from a text |
| `bep_processor`, `outgoing_requests` | what is done about messages, and which blocks are asked for |
| `bep_state`, `statements`, `rows`, `indices`, `read_back`, `replacing` | what is written to the database and read from it |
| `storage`, `file_writer`, `paths` | where files are kept, and how they are put together |
| `fuse` | the file system |

Functions whose names start with `law_` state what holds of the library as a whole.

`app/` is the program around the library: connections, the database, files and the mounted
file system. `tests/` runs the library on concrete values.
