# cgrun

The decisions of a daemonless cgroup v2 runner, proved with
[Verus](https://github.com/verus-lang/verus), and a command line around them.

`src/` is the verified library. It reads and writes nothing itself: it takes the
texts of files, directory listings and the system's answers as plain values, and
gives back what to write, whom to signal, what to create or remove, and what to
say. Each function states exactly what it returns; the functions named `law_*`
state what holds of several of them together.

| Modules | What they decide |
| --- | --- |
| `text`, `number`, `path`, `nest`, `order`, `sort` | splitting, numbers, paths, their nesting and order |
| `size`, `dmem`, `control`, `limits` | sizes, limits on device memory, memory and processor |
| `cgroup`, `walk`, `search`, `subtree`, `list` | reading the cgroup tree, finding and listing the runner's own cgroups |
| `run`, `place`, `ensure`, `spawn` | what a run needs, where its cgroup lies, how its command starts and ends |
| `signal`, `tree`, `kill`, `remove` | signalling, killing, freezing and removing |
| `privilege`, `create`, `command` | work with privileges, and the other commands |
| `fault`, `message` | telling failures apart, and naming them |

`app/` is the program: it parses the command line, performs the reads, writes,
signals and forks that the library asks for, and hands back what came of them.

What is trusted: the numbers of a few errors and signals, which numbers are
signals at all, and that a signal's name depends on its number alone. The library
takes these from the `nix` crate (see `fault` and `signal`). The numbers are those of Linux on every architecture but MIPS and SPARC.
