# envch

Lists, sets and removes environment variable declarations on Linux: in
`/etc/environment` (system scope), in the scripts of `/etc/profile.d` (user
scope) and in `~/.zshenv` or `~/.bashrc` (terminal scope).

- `src/` is the library, verified with Verus: the parsers of the four kinds
  of files, the rewriting of a file when a variable is set or removed, the
  choice of the file to change, and the lines that `list` prints. Each
  public function states its result over the spec functions of its module;
  `src/laws.rs` proves what holds across them (a variable that is set reads
  back with its value, a removed one is gone, the columns of a listing line
  up, and so on).
- `app/` is the command line program: it reads the files and the process
  environment, hands their contents to the library, and writes back what the
  library returns.
- `tests/` runs the library on concrete files.
