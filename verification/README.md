# git-projects

Pick a git repository from your projects directory with fzf and print its
path, so that a shell function can `cd` into it.

```sh
function cd-git-projects() {
  local dir=$(git-projects choice)
  if [ -n "$dir" ]; then
    cd "$dir"
  fi
}
```

`git-projects choice` (alias `c`) lists the repositories under the root
directory, narrowed to `GIT_PROJECTS_TARGETS` (colon-separated path
fragments); `git-projects choice all` ignores that filter. Recently chosen
repositories come first. The root is `git config --global ghq.root`, or
`$HOME/src` when that is unset. The history lives in
`$XDG_DATA_HOME/git-projects/history` (default `~/.local/share`).

## Layout

- `src/` is the library, verified with Verus:
  - `config.rs`: the root directory and the target filter;
  - `repo.rs`: deciding, entry by entry of a directory walk, which
    directories are repositories and where not to descend;
  - `choice.rs`: narrowing the list to the targets;
  - `history.rs`: reading, updating and writing the history, and ordering
    repositories by it;
  - `fzf.rs`: reading fzf's exit status and output;
  - `text.rs`: character and UTF-8 helpers.
- `app/main.rs` is the command: arguments, environment, git, the directory
  walk, fzf and the history file.
- `tests/` exercises the library.
