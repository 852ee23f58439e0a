# git-wt

`git wt` creates Git worktrees that are ready to work in: ignored files of the
source checkout, such as environments and caches, are cloned into the new
worktree with APFS copy-on-write clones.

The library in `src/` holds everything that decides: which worktrees there are
and which one is meant, where a new one goes and what it is called, which
entries are cloned, how links are retargeted, what is undone after a failure
and what is printed. It performs nothing itself. A command is a conversation:
the library asks for one operation at a time (`session::Request`), the program
performs it and hands back what came of it (`session::Reply`), and
`runner::Runner` carries the conversation on. Each procedure is verified
against a specification of that whole conversation, and `laws/` states what
follows from them: what is left alone, what is undone, what cannot be
overwritten.

`app/` is the program: the command line, Git, the file system and the streams.

## Layout

- `session`, `runner`: the conversation, and what drives it
- `errors`, `text`, `sequences`, `encoding`, `paths`, `pathset`, `order`, `json`:
  texts, paths and answers
- `git`, `naming`, `worktrees`, `listing`: repositories, names and selections
- `create`, `construct`, `clone`, `planner`, `populator`, `native`: creation
- `commands`: the commands themselves
- `laws`: properties of several procedures together

## Acknowledgements

The layout of repositories below the root follows ghq (MIT, Copyright (c) 2014
motemen). Cloning and the retargeting of links follow Lane (MIT, Copyright (c)
Luke Edwards).
