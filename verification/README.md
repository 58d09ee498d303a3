# rip

`rip` moves files to the freedesktop.org Trash on Linux instead of deleting
them. It renames where one mount shows both the file and the trash, and copies
only where it must.

The library holds the rules of the program, verified with Verus: how the first
word of a command line is read, which trash a file goes to, what is refused,
which step follows which report of the system, what is selected and in which
order, and most of what is said. `app/` asks the system and tells it: it reads
the other options with `clap`, makes the calls, goes through listings and
operands one by one, hands the library plain values, and does what comes back.

## Layout

| Module | What it decides |
|---|---|
| `cli` | The first word, sizes and ages, the configuration, consent, exit codes |
| `mounts` | `/proc/self/mountinfo`, paths through mounts, what a mount forbids |
| `paths`, `bytes`, `text`, `dates` | Paths by component, byte strings, text for people, dates |
| `info` | `.trashinfo` files, original paths, names that are tried |
| `sys` | Identity, manifests, no-overwrite renames, locks, routes |
| `tree`, `walk`, `remove` | Going through a tree: measuring it, removing it |
| `trash`, `load` | Finding trash directories and sorting out what is in them |
| `reserve`, `put`, `copying` | Taking a name, placing a file, copying it home |
| `restore`, `back`, `picker` | Listing, selecting, and bringing items back |
| `empty`, `delete` | Selecting what goes, and deleting it |
| `sort`, `table` | A stable sort and a lookup table |

Work that alternates with the system is a function from a state and a report to
the next state. Public proof functions state what holds over every course of
reports: that a source is touched only after its copy is complete and on disk,
that an info file is there before its entry and goes after it, that removal
unlinks and opens nothing it saw on another mount, that nothing is restored into
a directory that was not. They speak of what the system reports; that `app/`
reports it truly is not proved.

What is not proved is marked `external_body` or `assume_specification`, with a
comment that says what is claimed: a few calls of the standard library, `jiff`
for dates, `percent-encoding` for paths, `toml` for the configuration.
