use git_wt::clone::Entry;
use git_wt::errors::Error;
use git_wt::naming::absolute;
use git_wt::runner::Runner;
use git_wt::session::{
    Errno, ErrorKind, FileKind, GitContext, IoError, Metadata, OsError, Output, Progress, Reply,
    Request, Scratch, Session, Stop, WalkEntry, WalkFailure,
};
use git_wt::{Cli, Commands, NewOptions};
use serde_json::Value;
use std::collections::{BTreeMap, BTreeSet};

const GIT_FILE: &str = "gitdir";

#[derive(Clone, Debug, PartialEq)]
enum Node {
    Directory,
    File(String),
    Link(String),
    Special,
}

#[derive(Clone, Debug)]
struct Item {
    node: Node,
    mode: u32,
    inode: u64,
}

#[derive(Clone, Debug)]
struct Tree {
    path: String,
    branch: Option<String>,
    head: String,
    locked: bool,
    /// Whether another repository has taken the place.
    foreign: bool,
}

/// A file system and a repository in memory.
struct World {
    items: BTreeMap<String, Item>,
    inodes: u64,
    cwd: String,
    home: Option<String>,
    git_dir: String,
    separate: bool,
    trees: Vec<Tree>,
    branches: BTreeMap<String, String>,
    other_refs: BTreeMap<String, String>,
    commits: BTreeMap<String, BTreeMap<String, String>>,
    remote: Option<String>,
    config: Vec<(String, String)>,
    index: BTreeSet<String>,
    untracked: Vec<String>,
    ignored: Vec<String>,
    hook: Option<fn(&mut World)>,
    hook_failure: Option<String>,
    /// What Git says while it adds a worktree.
    notice: String,
    vanish: Option<String>,
    /// A reference that moves when a worktree is added, and where it goes.
    moved_start: Option<(String, String)>,
    clone_error: Option<Errno>,
    stderr_closed: bool,
    stderr: Vec<u8>,
    walk: Vec<String>,
    walk_mark: usize,
    contexts: Vec<(GitContext, String)>,
    changes: Vec<&'static str>,
    /// The trees whose index was set anew.
    resets: Vec<String>,
}

fn text(bytes: &[u8]) -> String {
    String::from_utf8(bytes.to_vec()).unwrap()
}

fn error(kind: ErrorKind, text: &str) -> IoError {
    IoError { kind, text: text.to_owned() }
}

fn missing() -> IoError {
    error(ErrorKind::NotFound, "No such file or directory (os error 2)")
}

fn said(stdout: &str) -> Output {
    Output {
        success: true,
        code: Some(0),
        status: "exit status: 0".to_owned(),
        stdout: stdout.as_bytes().to_vec(),
        stderr: Vec::new(),
    }
}

fn refused(code: i32, stderr: &str) -> Output {
    Output {
        success: false,
        code: Some(code),
        status: format!("exit status: {code}"),
        stdout: Vec::new(),
        stderr: stderr.as_bytes().to_vec(),
    }
}

fn parent(path: &str) -> String {
    match path.rfind('/') {
        Some(0) => "/".to_owned(),
        Some(at) => path[..at].to_owned(),
        None => String::new(),
    }
}

fn under(path: &str, base: &str) -> bool {
    path == base || path.starts_with(&format!("{base}/"))
}

impl World {
    fn new() -> World {
        let mut world = World {
            items: BTreeMap::new(),
            inodes: 0,
            cwd: "/base/repo".to_owned(),
            home: Some("/base/home".to_owned()),
            git_dir: "/base/repo/.git".to_owned(),
            separate: false,
            trees: Vec::new(),
            branches: BTreeMap::new(),
            other_refs: BTreeMap::new(),
            commits: BTreeMap::new(),
            remote: Some("git@gitlab.example:group/team/repo.git".to_owned()),
            config: Vec::new(),
            index: BTreeSet::new(),
            untracked: Vec::new(),
            ignored: Vec::new(),
            hook: None,
            hook_failure: None,
            notice: String::new(),
            vanish: None,
            moved_start: None,
            clone_error: None,
            stderr_closed: false,
            stderr: Vec::new(),
            walk: Vec::new(),
            walk_mark: 0,
            contexts: Vec::new(),
            changes: Vec::new(),
            resets: Vec::new(),
        };
        for directory in ["/", "/base", "/base/home", "/base/repo", "/base/repo/.git"] {
            world.put(directory, Node::Directory, 0o755);
        }
        let mut files = BTreeMap::new();
        for (name, contents) in [
            ("tracked", "base\n"),
            ("deleted", "delete me\n"),
            (".gitignore", ".env\ncache/\n"),
        ] {
            files.insert(name.to_owned(), contents.to_owned());
            world.index.insert(name.to_owned());
            world.write(&format!("/base/repo/{name}"), contents);
        }
        world.commits.insert(INITIAL.to_owned(), files);
        world.branches.insert("main".to_owned(), INITIAL.to_owned());
        world.trees.push(Tree {
            path: "/base/repo".to_owned(),
            branch: Some("main".to_owned()),
            head: INITIAL.to_owned(),
            locked: false,
            foreign: false,
        });
        world.config.push(("gwt.root".to_owned(), TREES.to_owned()));
        world
    }

    fn put(&mut self, path: &str, node: Node, mode: u32) {
        self.inodes += 1;
        let inode = self.inodes;
        self.items.insert(path.to_owned(), Item { node, mode, inode });
    }

    fn write(&mut self, path: &str, contents: &str) {
        self.put(path, Node::File(contents.to_owned()), 0o644);
    }

    fn directory(&mut self, path: &str) {
        let up = parent(path);
        if !self.items.contains_key(&up) {
            self.directory(&up);
        }
        self.put(path, Node::Directory, 0o755);
    }

    fn link(&mut self, target: &str, path: &str) {
        self.put(path, Node::Link(target.to_owned()), 0o777);
    }

    fn present(&self, path: &str) -> bool {
        self.items.contains_key(path)
    }

    fn contents(&self, path: &str) -> String {
        match &self.items[path].node {
            Node::File(contents) => contents.clone(),
            other => panic!("{path} is {other:?}"),
        }
    }

    fn target(&self, path: &str) -> String {
        match &self.items[path].node {
            Node::Link(target) => target.clone(),
            other => panic!("{path} is {other:?}"),
        }
    }

    fn discard(&mut self, path: &str) {
        let gone: Vec<String> = self
            .items
            .keys()
            .filter(|item| under(item, path))
            .cloned()
            .collect();
        for item in gone {
            self.items.remove(&item);
        }
    }

    /// Resolves a path, its last component only where `follow` says so.
    fn resolve(&self, path: &str, follow: bool) -> Result<String, IoError> {
        let mut left: Vec<String> = path.split('/').rev().map(str::to_owned).collect();
        let mut current = "/".to_owned();
        let mut links = 0;
        while let Some(word) = left.pop() {
            if word.is_empty() || word == "." {
                continue;
            }
            match self.items.get(&current).map(|item| &item.node) {
                Some(Node::Directory) => {}
                Some(_) => return Err(error(ErrorKind::Other, "Not a directory (os error 20)")),
                None => return Err(missing()),
            }
            if self.items[&current].mode == 0 {
                return Err(error(ErrorKind::Other, "Permission denied (os error 13)"));
            }
            if word == ".." {
                current = parent(&current);
                continue;
            }
            let next = if current == "/" {
                format!("/{word}")
            } else {
                format!("{current}/{word}")
            };
            let last = left.iter().all(|word| word.is_empty());
            match self.items.get(&next).map(|item| &item.node) {
                None => return Err(missing()),
                Some(Node::Link(target)) if follow || !last => {
                    links += 1;
                    if links > 32 {
                        return Err(error(ErrorKind::Other, "Too many levels of symbolic links"));
                    }
                    if target.starts_with('/') {
                        current = "/".to_owned();
                    }
                    left.extend(target.split('/').rev().map(str::to_owned));
                }
                Some(_) => current = next,
            }
        }
        Ok(current)
    }

    /// The place of an entry that need not be there.
    fn place(&self, path: &str) -> Result<String, IoError> {
        let up = self.resolve(&parent(path), true)?;
        match self.items.get(&up).map(|item| &item.node) {
            Some(Node::Directory) => {}
            Some(_) => return Err(error(ErrorKind::Other, "Not a directory (os error 20)")),
            None => return Err(missing()),
        }
        let name = &path[path.rfind('/').unwrap() + 1..];
        Ok(if up == "/" {
            format!("/{name}")
        } else {
            format!("{up}/{name}")
        })
    }

    fn describe(&self, path: &str, follow: bool) -> Result<Metadata, IoError> {
        let item = &self.items[&self.resolve(path, follow)?];
        Ok(Metadata {
            kind: match item.node {
                Node::Directory => FileKind::Directory,
                Node::File(_) => FileKind::File,
                Node::Link(_) => FileKind::Symlink,
                Node::Special => FileKind::Special,
            },
            device: 7,
            inode: item.inode,
            length: match &item.node {
                Node::File(contents) => contents.len() as u64,
                _ => 0,
            },
            mode: item.mode,
        })
    }

    fn create_directory(&mut self, path: &str) -> Result<(), IoError> {
        let place = self.place(path)?;
        if self.present(&place) {
            return Err(error(ErrorKind::AlreadyExists, "File exists (os error 17)"));
        }
        self.put(&place, Node::Directory, 0o755);
        Ok(())
    }

    fn remove_directory(&mut self, path: &str) -> Result<(), IoError> {
        let place = self.resolve(path, false)?;
        if self.items.keys().any(|item| item.starts_with(&format!("{place}/"))) {
            return Err(error(ErrorKind::Other, "Directory not empty (os error 66)"));
        }
        self.items.remove(&place);
        Ok(())
    }

    fn clone_file(&mut self, source: &str, destination: &str) -> Result<(), OsError> {
        let failed = |failure: IoError| OsError {
            errno: Errno::Other,
            kind: failure.kind,
            text: failure.text,
        };
        if let Some(errno) = self.clone_error {
            return Err(OsError {
                errno,
                kind: ErrorKind::Other,
                text: "Operation not supported (os error 45)".to_owned(),
            });
        }
        let from = self.resolve(source, false).map_err(failed)?;
        let to = self.place(destination).map_err(failed)?;
        if self.present(&to) {
            return Err(failed(error(ErrorKind::AlreadyExists, "File exists (os error 17)")));
        }
        let item = self.items[&from].clone();
        self.put(&to, item.node, item.mode);
        Ok(())
    }

    fn tree_at(&self, cwd: &str) -> Option<usize> {
        (0..self.trees.len())
            .filter(|&k| under(cwd, &self.trees[k].path) && self.present(&self.trees[k].path))
            .filter(|&k| k == 0 || self.present(&format!("{}/.git", self.trees[k].path)))
            .max_by_key(|&k| self.trees[k].path.len())
    }

    fn commit_of(&self, cwd: &str, reference: &str) -> Option<String> {
        if reference == "HEAD" {
            return self.tree_at(cwd).map(|k| self.trees[k].head.clone());
        }
        if self.commits.contains_key(reference) {
            return Some(reference.to_owned());
        }
        if let Some(branch) = reference.strip_prefix("refs/heads/") {
            return self.branches.get(branch).cloned();
        }
        if let Some(commit) = self.other_refs.get(reference) {
            return Some(commit.clone());
        }
        self.branches.get(reference).cloned()
    }

    fn git(&mut self, context: GitContext, cwd: &str, args: &[&str]) -> Output {
        self.contexts.push((context, args.join(" ")));
        let here = match self.tree_at(cwd) {
            Some(here) => here,
            None => return refused(128, "fatal: not a git repository\n"),
        };
        match args {
            ["rev-parse", "--path-format=absolute", "--show-toplevel"]
            | ["rev-parse", "--show-toplevel"] => said(&format!("{}\n", self.trees[here].path)),
            ["rev-parse", "--verify", "--end-of-options", reference] => {
                match self.commit_of(cwd, reference.strip_suffix("^{commit}").unwrap()) {
                    Some(commit) => said(&format!("{commit}\n")),
                    None => refused(128, "fatal: Needed a single revision\n"),
                }
            }
            ["rev-parse", "--verify", "HEAD"] => said(&format!("{}\n", self.trees[here].head)),
            ["rev-parse", "--absolute-git-dir"] => said(&if here == 0 {
                format!("{}\n", self.git_dir)
            } else {
                format!("{}/worktrees/{here}\n", self.git_dir)
            }),
            ["rev-parse", "--path-format=absolute", "--git-common-dir"] => {
                said(&if self.trees[here].foreign {
                    format!("{}/.git\n", self.trees[here].path)
                } else {
                    format!("{}\n", self.git_dir)
                })
            }
            ["config", "--get", key] => self.lookup(key),
            ["config", "--path", "--get-urlmatch", "gwt.root", url] => {
                let scoped = self
                    .config
                    .iter()
                    .filter(|(key, _)| key.starts_with("gwt.ssh://") && key.ends_with(".root"))
                    .find(|(key, _)| url.starts_with(&key[4..key.len() - 5]))
                    .map(|(_, value)| format!("{value}\n"));
                match scoped {
                    Some(value) => said(&value),
                    None => self.lookup("gwt.root"),
                }
            }
            ["config", "--null", "--get-all", "gwt.exclude"] => {
                let values: String = self
                    .config
                    .iter()
                    .filter(|(key, _)| key == "gwt.exclude")
                    .map(|(_, value)| format!("{value}\0"))
                    .collect();
                if values.is_empty() {
                    refused(1, "")
                } else {
                    said(&values)
                }
            }
            ["remote", "get-url", "--", name] => match (&self.remote, *name) {
                (Some(url), "origin") => said(&format!("{url}\n")),
                _ => refused(2, "error: No such remote\n"),
            },
            ["symbolic-ref", "--quiet", "HEAD"] => match &self.trees[here].branch {
                Some(branch) => said(&format!("refs/heads/{branch}\n")),
                None => refused(1, ""),
            },
            ["for-each-ref", "--format=%(refname:strip=2)", "refs/heads/"] => {
                said(&self.branches.keys().map(|b| format!("{b}\n")).collect::<String>())
            }
            ["check-ref-format", "--branch", branch] => {
                if branch.contains("..") || branch.contains(' ') || branch.is_empty() {
                    refused(128, &format!("fatal: '{branch}' is not a valid branch name\n"))
                } else {
                    said(&format!("{branch}\n"))
                }
            }
            ["show-ref", "--verify", "--quiet", reference] => {
                match reference.strip_prefix("refs/heads/") {
                    Some(branch) if self.branches.contains_key(branch) => said(""),
                    _ => refused(1, ""),
                }
            }
            ["worktree", "list", "--porcelain", "-z"] => said(&self.porcelain()),
            ["worktree", "add", ..] => self.add(&args[2..]),
            ["worktree", "remove", "--force", "--", path] => self.remove(path, true),
            ["worktree", "remove", "--", path] => self.remove(path, false),
            ["reset", "--mixed", _] => {
                // Elsewhere the environment may name the index of the source.
                let tree = if context == GitContext::Destination { here } else { 0 };
                self.resets.push(self.trees[tree].path.clone());
                said("")
            }
            ["ls-files", "--cached", "--full-name", "-z", "--", ":/"] => {
                said(&self.index.iter().map(|path| format!("{path}\0")).collect::<String>())
            }
            ["ls-files", "--others", "--exclude-standard", "--full-name", "-z", "--", ":/"] => {
                said(&self.untracked.iter().map(|path| format!("{path}\0")).collect::<String>())
            }
            ["ls-files", "--others", "--ignored", "--exclude-standard", "--directory", "--full-name", "-z", "--", ":/"] => {
                said(&self.ignored.iter().map(|path| format!("{path}\0")).collect::<String>())
            }
            other => panic!("unexpected git {other:?}"),
        }
    }

    fn lookup(&self, wanted: &str) -> Output {
        match self.config.iter().find(|(key, _)| key == wanted) {
            Some((_, value)) => said(&format!("{value}\n")),
            None => refused(1, ""),
        }
    }

    fn porcelain(&self) -> String {
        let mut out = String::new();
        for (k, tree) in self.trees.iter().enumerate() {
            let path = if k == 0 && self.separate { &self.git_dir } else { &tree.path };
            out.push_str(&format!("worktree {path}\0HEAD {}\0", tree.head));
            match &tree.branch {
                Some(branch) => out.push_str(&format!("branch refs/heads/{branch}\0")),
                None => out.push_str("detached\0"),
            }
            if tree.locked {
                out.push_str("locked\0");
            }
            out.push('\0');
        }
        out
    }

    fn add(&mut self, args: &[&str]) -> Output {
        let mut rest = args;
        let mut checkout = true;
        let mut fresh = None;
        loop {
            match rest {
                ["--no-checkout", more @ ..] => {
                    checkout = false;
                    rest = more;
                }
                ["-b", branch, more @ ..] => {
                    fresh = Some((*branch).to_owned());
                    rest = more;
                }
                _ => break,
            }
        }
        let (path, point) = match rest {
            ["--", path, point] => (*path, *point),
            other => panic!("unexpected worktree add {other:?}"),
        };
        if let Some((reference, commit)) = self.moved_start.clone() {
            self.move_reference(&reference, &commit);
        }
        let head = self.commit_of("/base/repo", point).unwrap();
        let branch = match fresh {
            Some(branch) => {
                self.branches.insert(branch.clone(), head.clone());
                branch
            }
            None => point.to_owned(),
        };
        if self.trees.iter().any(|tree| tree.branch.as_ref() == Some(&branch)) {
            return refused(128, &format!("fatal: '{branch}' is already checked out\n"));
        }
        self.write(&format!("{path}/.git"), GIT_FILE);
        if checkout {
            for (name, contents) in self.commits[&head].clone() {
                self.write(&format!("{path}/{name}"), &contents);
            }
        }
        self.trees.push(Tree {
            path: path.to_owned(),
            branch: Some(branch),
            head,
            locked: false,
            foreign: false,
        });
        self.trees[1..].sort_by(|a, b| a.path.cmp(&b.path));
        if let Some(hook) = self.hook {
            hook(self);
        }
        if let Some(entry) = self.vanish.clone() {
            self.discard(&entry);
        }
        match &self.hook_failure {
            Some(failure) => refused(1, failure),
            None => Output { stderr: self.notice.as_bytes().to_vec(), ..said("") },
        }
    }

    fn move_reference(&mut self, reference: &str, commit: &str) {
        match reference.strip_prefix("refs/heads/") {
            Some(branch) => self.branches.insert(branch.to_owned(), commit.to_owned()),
            None => self.other_refs.insert(reference.to_owned(), commit.to_owned()),
        };
    }

    /// Whether the index of the source is as it was.
    fn keeps_its_index(&self) -> bool {
        !self.resets.contains(&self.trees[0].path)
    }

    /// What is read at a path, through symbolic links.
    fn read(&self, path: &str) -> String {
        self.contents(&self.resolve(path, true).unwrap())
    }

    fn remove(&mut self, path: &str, force: bool) -> Output {
        let k = self.trees.iter().position(|tree| tree.path == path).unwrap();
        if self.trees[k].locked {
            return refused(128, "fatal: cannot remove a locked working tree\n");
        }
        let dirty = self.commits[&self.trees[k].head]
            .iter()
            .any(|(name, contents)| {
                let place = format!("{path}/{name}");
                !self.present(&place) || self.contents(&place) != *contents
            });
        if dirty && !force {
            return refused(128, "fatal: contains modified or untracked files\n");
        }
        self.trees.remove(k);
        self.discard(path);
        said("")
    }

    fn next_entry(&mut self) -> Option<Result<WalkEntry, WalkFailure>> {
        let path = self.walk.pop()?;
        self.walk_mark = self.walk.len();
        match self.describe(&path, false) {
            Err(failure) => Some(Err(WalkFailure {
                path: Some(path.clone().into_bytes()),
                kind: Some(failure.kind),
                causes: vec![
                    format!("IO error for operation on {path}: {}", failure.text),
                    failure.text,
                ],
            })),
            Ok(metadata) => {
                if metadata.kind == FileKind::Directory {
                    let prefix = format!("{}/", path.trim_end_matches('/'));
                    let children: Vec<String> = self
                        .items
                        .keys()
                        .filter(|item| item.starts_with(&prefix))
                        .filter(|item| !item[prefix.len()..].contains('/'))
                        .cloned()
                        .collect();
                    self.walk.extend(children.into_iter().rev());
                }
                Some(Ok(WalkEntry {
                    path: path.into_bytes(),
                    kind: metadata.kind,
                }))
            }
        }
    }

    fn perform(&mut self, request: Request) -> Reply {
        match &request {
            Request::Git { context: GitContext::WorktreeMutation, .. } => self.changes.push("git"),
            Request::CreateDirectory(_) | Request::CreateDirectories(_) => {
                self.changes.push("create")
            }
            Request::RemoveDirectory(_) => self.changes.push("remove"),
            Request::Clone { .. } => self.changes.push("clone"),
            Request::Link { .. } => self.changes.push("link"),
            Request::SetPermissions { .. } => self.changes.push("mode"),
            Request::Scratch { .. } => self.changes.push("scratch"),
            Request::DropScratch => self.changes.push("drop"),
            _ => {}
        }
        match request {
            Request::Git { context, cwd, args } => {
                let args: Vec<&str> = args.iter().map(String::as_str).collect();
                let output = self.git(context, &text(&cwd), &args);
                Reply::Git(Ok(output))
            }
            Request::Report(bytes) => Reply::Unit(if self.stderr_closed {
                Err(error(ErrorKind::BrokenPipe, "Broken pipe (os error 32)"))
            } else {
                self.stderr.extend(bytes);
                Ok(())
            }),
            Request::Canonicalize(path) => {
                Reply::Path(self.resolve(&text(&path), true).map(String::into_bytes))
            }
            Request::Metadata(path) => Reply::Metadata(self.describe(&text(&path), true)),
            Request::SymlinkMetadata(path) => Reply::Metadata(self.describe(&text(&path), false)),
            Request::CurrentDirectory => Reply::Path(Ok(self.cwd.clone().into_bytes())),
            Request::Home => Reply::Home(self.home.clone().map(String::into_bytes)),
            Request::CreateDirectory(path) => Reply::Unit(self.create_directory(&text(&path))),
            Request::CreateDirectories(path) => {
                let path = text(&path);
                if !self.present(&path) {
                    self.directory(&path);
                }
                Reply::Unit(Ok(()))
            }
            Request::RemoveDirectory(path) => Reply::Unit(self.remove_directory(&text(&path))),
            Request::Clone { source, destination } => {
                Reply::Cloned(self.clone_file(&text(&source), &text(&destination)))
            }
            Request::ReadLink(path) => {
                Reply::Path(match self.resolve(&text(&path), false) {
                    Err(failure) => Err(failure),
                    Ok(place) => match &self.items[&place].node {
                        Node::Link(target) => Ok(target.clone().into_bytes()),
                        _ => Err(error(ErrorKind::InvalidInput, "Invalid argument (os error 22)")),
                    },
                })
            }
            Request::Link { target, path } => Reply::Unit(match self.place(&text(&path)) {
                Err(failure) => Err(failure),
                Ok(place) if self.present(&place) => {
                    Err(error(ErrorKind::AlreadyExists, "File exists (os error 17)"))
                }
                Ok(place) => {
                    self.link(&text(&target), &place);
                    Ok(())
                }
            }),
            Request::SetPermissions { path, mode } => {
                let place = self.resolve(&text(&path), true);
                Reply::Unit(place.map(|place| self.items.get_mut(&place).unwrap().mode = mode))
            }
            Request::Scratch { source_directory, destination_parent } => {
                let file = format!("{}/.git-wt-probe-a", text(&source_directory));
                let directory = format!("{}/.git-wt-probe-b", text(&destination_parent));
                self.write(&file, "");
                self.directory(&directory);
                Reply::Scratch(Ok(Scratch {
                    file: file.into_bytes(),
                    directory: directory.into_bytes(),
                }))
            }
            Request::DropScratch => {
                let gone: Vec<String> = self
                    .items
                    .keys()
                    .filter(|item| item.contains("/.git-wt-probe-"))
                    .cloned()
                    .collect();
                for item in gone {
                    self.items.remove(&item);
                }
                Reply::Unit(Ok(()))
            }
            Request::OpenWalk(path) => {
                let path = text(&path);
                self.walk = vec![path.trim_end_matches('/').to_owned()];
                Reply::Unit(Ok(()))
            }
            Request::NextEntry => Reply::Walked(self.next_entry()),
            Request::SkipDirectory => {
                self.walk.truncate(self.walk_mark);
                Reply::Unit(Ok(()))
            }
            Request::Plan(_) | Request::Populate { .. } => {
                panic!("plans and populations are made by the library")
            }
        }
    }

    fn run(&mut self, command: Commands) -> Result<String, Error> {
        let mut runner = Runner::new(Cli { command });
        loop {
            match runner.next() {
                Progress::Perform(request) => {
                    let reply = self.perform(request);
                    runner.answer(reply);
                }
                Progress::Working => {}
                Progress::Finished(outcome) => return outcome,
                Progress::Stray => panic!("stray answer"),
            }
        }
    }

    fn run_in(&mut self, cwd: &str, command: Commands) -> Result<String, Error> {
        let before = self.cwd.clone();
        self.cwd = cwd.to_owned();
        let outcome = self.run(command);
        self.cwd = before;
        outcome
    }

    fn new_tree(&mut self, options: NewOptions) -> String {
        let answer = self.run(Commands::New(options)).unwrap();
        answer.strip_suffix('\n').unwrap().to_owned()
    }

    fn branch_at(&self, path: &str) -> String {
        let tree = self.trees.iter().find(|tree| tree.path == path).unwrap();
        tree.branch.clone().unwrap()
    }

    fn head_at(&self, path: &str) -> String {
        let tree = self.trees.iter().find(|tree| tree.path == path).unwrap();
        tree.head.clone()
    }
}

const INITIAL: &str = "1111111111111111111111111111111111111111";
const NEXT: &str = "2222222222222222222222222222222222222222";
const TREES: &str = "/base/trees";
const PARENT: &str = "/base/trees/gitlab.example/group/team/repo";

fn named(branch: &str) -> NewOptions {
    NewOptions {
        branch: Some(branch.to_owned()),
        base: None,
        path: None,
        dirty: false,
        exclude: Vec::new(),
        no_clone: false,
        json: false,
    }
}

fn plain(branch: &str) -> NewOptions {
    NewOptions { no_clone: true, ..named(branch) }
}

fn unnamed() -> NewOptions {
    NewOptions { branch: None, ..plain("") }
}

fn at(path: &str) -> Option<Vec<u8>> {
    Some(path.as_bytes().to_vec())
}

fn path_of(selector: &str) -> Commands {
    Commands::Path {
        worktree: Some(selector.to_owned()),
        main_worktree: false,
        json: false,
    }
}

fn main_path() -> Commands {
    Commands::Path { worktree: None, main_worktree: true, json: false }
}

fn removal(selector: &str) -> Commands {
    Commands::Remove { worktree: selector.to_owned(), force: false }
}

fn next_commit(world: &mut World) {
    let mut files = world.commits[INITIAL].clone();
    files.insert("tracked".to_owned(), "next\n".to_owned());
    world.commits.insert(NEXT.to_owned(), files);
    world.branches.insert("main".to_owned(), NEXT.to_owned());
    world.trees[0].head = NEXT.to_owned();
    world.write("/base/repo/tracked", "next\n");
}

#[test]
fn automatic_branch_names_ignore_same_named_tags() {
    for branch in ["main", "feature/topic"] {
        let mut r = World::new();
        r.trees[0].branch = Some(branch.to_owned());
        r.branches.insert(branch.to_owned(), INITIAL.to_owned());
        r.branches.insert(format!("{branch}-1"), INITIAL.to_owned());
        r.other_refs.insert(format!("refs/tags/{branch}"), INITIAL.to_owned());

        let tree = r.new_tree(unnamed());

        assert_eq!(r.branch_at(&tree), format!("{branch}-2"));
        assert_eq!(tree, format!("{PARENT}/{branch}-2"));
        assert_eq!(r.branch_at("/base/repo"), branch);
    }
}

#[test]
fn unnamed_creation_creates_distinct_branches_and_skips_occupied_names() {
    let mut r = World::new();
    r.branches.insert("main-1".to_owned(), INITIAL.to_owned());
    let occupied = format!("{PARENT}/main-2");
    r.directory(&occupied);
    r.write(&format!("{occupied}/keep"), "keep");

    let a = r.new_tree(unnamed());
    let b = r.new_tree(unnamed());

    assert_eq!(a, format!("{PARENT}/main-3"));
    assert_eq!(b, format!("{PARENT}/main-4"));
    assert_eq!(r.branch_at(&a), "main-3");
    assert_eq!(r.head_at(&a), INITIAL);
    assert!(r.present(&format!("{occupied}/keep")));
    assert!(r.run(Commands::New(plain("main"))).is_err());
}

#[test]
fn detached_source_uses_a_new_named_branch() {
    let mut r = World::new();
    r.trees[0].branch = None;

    let tree = r.new_tree(unnamed());

    assert_eq!(r.branch_at(&tree), "detached-1");
}

#[test]
fn explicit_path_bypasses_remote_and_handles_whitespace_json() {
    let mut r = World::new();
    r.remote = None;
    let destination = format!("{TREES}/space tab\tnewline\n");
    r.directory(TREES);

    let output = r
        .run(Commands::New(NewOptions {
            path: at(&destination),
            json: true,
            ..plain("topic/slash")
        }))
        .unwrap();
    let object: Value = serde_json::from_str(&output).unwrap();

    assert_eq!(object["path"], destination);
    assert_eq!(object["mode"], "none");

    let listing: Value =
        serde_json::from_str(&r.run(Commands::List { json: true }).unwrap()).unwrap();
    assert!(
        listing
            .as_array()
            .unwrap()
            .iter()
            .any(|t| t["path"] == destination && t["bare"] == false)
    );

    assert_eq!(
        r.run(Commands::Path {
            worktree: Some("topic/slash".to_owned()),
            main_worktree: false,
            json: true,
        })
        .unwrap(),
        "{\"path\":\"/base/trees/space tab\\tnewline\\n\"}\n"
    );
}

#[test]
fn human_list_has_aligned_path_head_checkout_and_status_columns() {
    let mut r = World::new();
    let tree = r.new_tree(plain("feature"));
    r.trees.iter_mut().find(|t| t.path == tree).unwrap().locked = true;

    let detached = format!("{TREES}/detached");
    r.directory(&detached);
    r.trees.push(Tree {
        path: detached.clone(),
        branch: None,
        head: INITIAL.to_owned(),
        locked: false,
        foreign: false,
    });
    r.trees[1..].sort_by(|a, b| a.path.cmp(&b.path));

    let head = &INITIAL[..8];
    let root = "/base/repo";
    let path_width = [root, tree.as_str(), detached.as_str()]
        .into_iter()
        .map(|path| path.chars().count())
        .max()
        .unwrap();
    let kind_width = "detached".chars().count();
    let branch_width = "feature".chars().count();

    assert_eq!(
        r.run(Commands::List { json: false }).unwrap(),
        format!(
            "* {root:<path_width$} {head} {branch_kind:<kind_width$} {main:<branch_width$} -\n  {detached:<path_width$} {head} detached {none:<branch_width$} -\n  {tree:<path_width$} {head} {branch_kind:<kind_width$} feature locked\n",
            branch_kind = "branch",
            main = "main",
            none = "-",
        )
    );
}

#[test]
fn config_url_matching_and_full_namespace() {
    let mut r = World::new();
    let scoped = format!("{TREES}/company");
    r.config.push(("gwt.ssh://git@gitlab.example.root".to_owned(), scoped.clone()));

    let tree = r.new_tree(plain("feature/login"));

    assert_eq!(tree, format!("{scoped}/gitlab.example/group/team/repo/feature/login"));
}

#[test]
fn unnamed_creations_report_their_branch_as_json() {
    let mut r = World::new();

    let output = r
        .run(Commands::New(NewOptions { json: true, ..unnamed() }))
        .unwrap();
    let value: Value = serde_json::from_str(&output).unwrap();
    assert_eq!(value["branch"], "main-1");
}

#[test]
fn main_worktree_path_is_independent_of_branch_name() {
    let mut r = World::new();
    let commit = r.branches.remove("main").unwrap();
    r.branches.insert("trunk".to_owned(), commit);
    r.trees[0].branch = Some("trunk".to_owned());
    let linked = r.new_tree(plain("main"));

    assert_eq!(r.run_in(&linked, path_of("main")).unwrap(), format!("{linked}\n"));
    assert_eq!(r.run_in(&linked, main_path()).unwrap(), "/base/repo\n");

    let output = r
        .run_in(
            &linked,
            Commands::Path { worktree: None, main_worktree: true, json: true },
        )
        .unwrap();
    let value: Value = serde_json::from_str(&output).unwrap();
    assert_eq!(value["path"], "/base/repo");
}

#[test]
fn branch_namespace_collision_and_separate_git_directory() {
    let mut r = World::new();
    r.branches.insert("main-1/child".to_owned(), INITIAL.to_owned());

    let new = r.new_tree(unnamed());
    assert_eq!(new, format!("{PARENT}/main-2"));

    let admin = format!("{TREES}/admin");
    r.directory(&admin);
    r.git_dir = admin;
    r.separate = true;

    assert_eq!(r.run(main_path()).unwrap(), "/base/repo\n");

    // Git reports the administrative directory from a linked worktree here. It is
    // no checkout, and is not answered as one.
    assert!(r.run_in(&new, main_path()).is_err());

    let child = r.run_in(&new, Commands::New(unnamed())).unwrap();
    assert!(r.present(&format!("{}/.git", child.trim_end_matches('\n'))));
}

#[test]
fn remove_never_prunes_the_repository_parent_or_its_ancestors() {
    let mut r = World::new();
    let tree = r.new_tree(NewOptions { path: at(PARENT), ..plain("whole-parent") });
    assert_eq!(tree, PARENT);
    r.run(removal("whole-parent")).unwrap();

    assert!(!r.present(PARENT));
    assert!(r.present(&parent(PARENT)), "namespace directory pruned");
    assert!(r.present(TREES), "gwt.root pruned");

    let sibling = format!("{TREES}/gitlab.example/group/team/other");
    let tree = r.new_tree(NewOptions { path: at(&sibling), ..plain("sibling") });
    assert_eq!(tree, sibling);
    r.run(removal("sibling")).unwrap();
    assert!(!r.present(&sibling));
    assert!(r.present(&parent(&sibling)));
}

#[test]
fn remove_prunes_empty_namespace_directories_below_the_repository_parent() {
    let mut r = World::new();
    let a = r.new_tree(plain("feature/deep/a"));
    let b = r.new_tree(plain("feature/b"));

    r.run(removal("feature/deep/a")).unwrap();
    assert!(!r.present(&a));
    assert!(!r.present(&format!("{PARENT}/feature/deep")));
    assert!(r.present(&format!("{b}/.git")));

    r.write(&format!("{PARENT}/feature/note"), "keep");
    r.run(removal("feature/b")).unwrap();
    assert!(!r.present(&b));
    assert_eq!(r.contents(&format!("{PARENT}/feature/note")), "keep");

    r.discard(&format!("{PARENT}/feature/note"));
    let last = r.new_tree(plain("feature/last"));
    r.run(removal("feature/last")).unwrap();
    assert!(!r.present(&last));
    assert!(!r.present(&format!("{PARENT}/feature")));
    assert!(r.present(PARENT));

    let outside = format!("{TREES}/outside/tree");
    r.new_tree(NewOptions { path: at(&outside), ..plain("outside") });
    r.run(removal("outside")).unwrap();
    assert!(!r.present(&outside));
    assert!(r.present(&format!("{TREES}/outside")));
}

#[test]
fn missing_home_without_a_configured_root_is_reported_as_such() {
    let mut r = World::new();
    r.config.clear();
    r.home = None;

    let failure = r.run(Commands::New(plain("homeless"))).unwrap_err();

    assert_eq!(failure.exit_status(), 1);
    let failure = failure.message();
    assert!(failure.contains("HOME"), "{failure}");
    assert!(!failure.contains("gwt.root must be absolute"), "{failure}");
    assert!(!r.branches.contains_key("homeless"));
}

#[test]
fn branch_selectors_do_not_require_a_traversable_source_relative_path() {
    let mut r = World::new();
    let destination = r.new_tree(plain("tracked/topic"));

    assert_eq!(r.run(path_of("tracked/topic")).unwrap(), format!("{destination}\n"));

    r.run(removal("tracked/topic")).unwrap();
    assert!(!r.present(&destination));
    assert_eq!(r.contents("/base/repo/tracked"), "base\n");

    let branch = r.new_tree(plain("ambiguous"));
    let nested = r.new_tree(NewOptions { path: at("ambiguous"), ..plain("different-branch") });

    assert!(
        r.run(path_of("ambiguous"))
            .unwrap_err()
            .message()
            .contains("ambiguous")
    );
    assert_eq!(r.run(path_of(&branch)).unwrap(), format!("{branch}\n"));
    assert!(r.present(&format!("{nested}/.git")));
}

#[test]
fn ignored_environment_and_real_git_worktree() {
    let mut r = World::new();
    r.write("/base/repo/.env", "secret");
    r.directory("/base/repo/cache");
    r.write("/base/repo/cache/data", "\u{0}\u{1}\u{ff}\u{4}");
    r.ignored = vec![".env".to_owned(), "cache/".to_owned()];
    r.write("/base/repo/tracked", "dirty");
    r.write("/base/repo/untracked", "not ignored");
    r.untracked = vec!["untracked".to_owned()];

    let tree = r.new_tree(named("fix"));

    assert_eq!(tree, format!("{PARENT}/fix"));
    assert!(r.present(&format!("{tree}/.git")));
    let common = ["rev-parse", "--path-format=absolute", "--git-common-dir"];
    assert_eq!(text(&r.git(GitContext::Source, &tree, &common).stdout), "/base/repo/.git\n");
    let own = ["rev-parse", "--absolute-git-dir"];
    assert_ne!(
        r.git(GitContext::Source, &tree, &own).stdout,
        r.git(GitContext::Source, "/base/repo", &own).stdout
    );
    assert_eq!(r.contents(&format!("{tree}/tracked")), "base\n");
    assert!(!r.present(&format!("{tree}/untracked")));
    assert_eq!(r.contents(&format!("{tree}/.env")), "secret");
    assert_eq!(
        r.contents(&format!("{tree}/cache/data")),
        "\u{0}\u{1}\u{ff}\u{4}"
    );
    assert!(!r.items.keys().any(|item| item.contains(".git-wt-probe-")));

    r.write(&format!("{tree}/cache/data"), "changed");
    assert_eq!(
        r.contents("/base/repo/cache/data"),
        "\u{0}\u{1}\u{ff}\u{4}"
    );
}

#[test]
fn exclusions_only_remove_ignored_files_and_match_components() {
    let mut r = World::new();
    r.directory("/base/repo/cache");
    r.write("/base/repo/cache/tracked", "tracked cache");
    r.index.insert("cache/tracked".to_owned());
    r.write("/base/repo/cache/ignored", "drop");
    r.write("/base/repo/.env", "drop");
    r.write("/base/repo/target", "nonignored");
    r.write("/base/repo/target-old", "keep");
    r.untracked = vec!["target".to_owned(), "target-old".to_owned()];
    r.ignored = vec![".env".to_owned(), "cache/ignored".to_owned()];
    r.config.push(("gwt.exclude".to_owned(), ".env".to_owned()));

    let tree = r.new_tree(NewOptions {
        dirty: true,
        exclude: vec!["./cache/".to_owned(), "target".to_owned()],
        ..named("dirty")
    });

    assert!(r.present(&format!("{tree}/cache/tracked")));
    assert!(!r.present(&format!("{tree}/cache/ignored")));
    assert!(r.present(&format!("{tree}/target")));
    assert!(r.present(&format!("{tree}/target-old")));
    assert!(!r.present(&format!("{tree}/.env")));
}

#[test]
fn ignored_entries_removed_after_planning_do_not_abort_creation() {
    let mut r = World::new();
    r.write("/base/repo/.env", "transient environment");
    r.directory("/base/repo/cache");
    r.items.get_mut("/base/repo/cache").unwrap().mode = 0o700;
    r.write("/base/repo/cache/artifact", "transient build output");
    r.link("missing", "/base/repo/cache/link");
    r.ignored = vec![".env".to_owned(), "cache/".to_owned()];
    r.hook = Some(|world| {
        world.discard("/base/repo/.env");
        world.discard("/base/repo/cache");
    });

    let output = r
        .run(Commands::New(NewOptions { json: true, ..named("vanished") }))
        .unwrap();
    let output: Value = serde_json::from_str(&output).unwrap();
    let tree = output["path"].as_str().unwrap();

    assert_eq!(r.contents(&format!("{tree}/tracked")), "base\n");
    assert!(!r.present(&format!("{tree}/.env")));
    assert!(!r.present(&format!("{tree}/cache/artifact")));
    assert!(!r.present(&format!("{tree}/cache/link")));
    assert_eq!(r.items[&format!("{tree}/cache")].mode, 0o700);
    assert_eq!(output["clone"]["files"], 0);
    assert_eq!(r.branch_at(tree), "vanished");
}

#[test]
fn retargeting_preserves_parent_traversal_and_external_link_meaning() {
    let mut r = World::new();
    r.write("/base/shared", "external sentinel");
    r.directory("/base/repo/cache");
    r.directory("/base/repo/sub");
    r.directory("/base/trees/elsewhere/sub");
    r.write("/base/trees/elsewhere/shared", "hop sentinel");
    r.link("/base/trees/elsewhere/sub", "/base/repo/hop");

    let preserved = [
        ("escape", "/base/repo/../shared"),
        ("internal-parent", "/base/repo/sub/../tracked"),
        ("symlink-parent", "/base/repo/hop/../shared"),
        ("dangling-escape", "/base/repo/../missing"),
        ("external", "/base/shared"),
        ("relative", "../tracked"),
    ];
    for (name, target) in preserved {
        r.link(target, &format!("/base/repo/cache/{name}"));
    }
    r.link("/base/repo/missing", "/base/repo/cache/internal-dangling");
    r.link("/base/repo/tracked", "/base/repo/cache/internal-alias");
    r.ignored = vec!["cache/".to_owned()];

    let output = r
        .run(Commands::New(NewOptions { json: true, ..named("retarget") }))
        .unwrap();
    let value: Value = serde_json::from_str(&output).unwrap();
    let destination = value["path"].as_str().unwrap();

    assert_eq!(value["clone"]["symlinks"], 8);
    for (name, target) in preserved {
        assert_eq!(r.target(&format!("{destination}/cache/{name}")), target);
    }
    assert_eq!(r.read(&format!("{destination}/cache/escape")), "external sentinel");
    assert_eq!(r.read(&format!("{destination}/cache/symlink-parent")), "hop sentinel");
    assert_eq!(
        r.target(&format!("{destination}/cache/internal-dangling")),
        format!("{destination}/missing")
    );
    assert_eq!(
        r.target(&format!("{destination}/cache/internal-alias")),
        format!("{destination}/tracked")
    );
    assert_eq!(r.contents("/base/shared"), "external sentinel");
}

#[test]
fn retargeting_recognizes_any_alias_that_resolves_to_the_source_root() {
    let mut r = World::new();
    r.link("/base/repo", "/base/alias");
    r.directory("/base/elsewhere");
    r.write("/base/elsewhere/sentinel", "outside");
    r.directory("/base/repo/cache");
    let links = [
        ("through-alias", "/base/alias/tracked", Some("tracked")),
        ("dangling-alias", "/base/alias/missing/file", Some("missing/file")),
        ("alias-root", "/base/alias", Some("")),
        ("alias-parent", "/base/alias/cache/../tracked", None),
        ("outside", "/base/elsewhere/sentinel", None),
    ];
    for (name, target, _) in links {
        r.link(target, &format!("/base/repo/cache/{name}"));
    }
    r.ignored = vec!["cache/".to_owned()];

    let tree = r.new_tree(named("aliases"));

    for (name, target, retargeted) in links {
        let expected = match retargeted {
            Some(relative) => format!("{tree}/{relative}"),
            None => target.to_owned(),
        };
        assert_eq!(r.target(&format!("{tree}/cache/{name}")), expected, "{name}");
    }
    assert_eq!(r.read(&format!("{tree}/cache/through-alias")), "base\n");
    assert_eq!(r.read(&format!("{tree}/cache/outside")), "outside");
}

#[test]
fn hook_failure_cleans_registered_worktree_and_retains_branch() {
    let mut r = World::new();
    r.hook_failure = Some("hook failed\n".to_owned());

    let failure = r.run(Commands::New(plain("hook-failure"))).unwrap_err().message();

    assert!(failure.contains("hook failed"));
    assert!(failure.contains("retained"));
    assert!(!r.present(&format!("{PARENT}/hook-failure")));
    assert_eq!(r.trees.len(), 1);
}

#[test]
fn base_start_points_reach_git_verbatim_so_tracking_is_configured() {
    let mut r = World::new();
    next_commit(&mut r);
    r.other_refs.insert("origin/feature".to_owned(), INITIAL.to_owned());

    let output = r
        .run(Commands::New(NewOptions {
            base: Some("origin/feature".to_owned()),
            json: true,
            ..plain("tracking")
        }))
        .unwrap();
    let output: Value = serde_json::from_str(&output).unwrap();

    assert_eq!(output["head"], INITIAL);
    let tree = output["path"].as_str().unwrap();
    assert_eq!(r.head_at(tree), INITIAL);
    assert!(
        r.contexts
            .iter()
            .any(|(_, args)| args.ends_with("/tracking origin/feature"))
    );

    let plain_base = r.new_tree(NewOptions {
        base: Some(INITIAL.to_owned()),
        ..plain("plain-base")
    });
    assert_eq!(r.head_at(&plain_base), INITIAL);
    assert!(
        r.run(Commands::New(NewOptions {
            base: Some("missing-ref".to_owned()),
            ..plain("bad-base")
        }))
        .is_err()
    );
}

#[test]
fn base_retries_a_retained_branch_only_at_the_same_commit() {
    let mut r = World::new();
    next_commit(&mut r);
    r.hook_failure = Some("hook failed\n".to_owned());
    let at_initial = |branch: &str| NewOptions {
        base: Some(INITIAL.to_owned()),
        ..plain(branch)
    };

    let failure = r.run(Commands::New(at_initial("retry"))).unwrap_err().message();
    assert!(failure.contains("retained"), "{failure}");

    r.hook_failure = None;
    let tree = r.new_tree(at_initial("retry"));
    assert_eq!(r.head_at(&tree), INITIAL);

    r.branches.insert("other".to_owned(), NEXT.to_owned());
    let failure = r.run(Commands::New(at_initial("other"))).unwrap_err();
    assert_eq!(failure.exit_status(), 2);
    let failure = failure.message();
    assert!(failure.contains("another branch name"), "{failure}");
    assert!(!failure.contains("branch -D"), "{failure}");
    assert_eq!(r.branches["other"], NEXT);
    assert!(!r.present(&format!("{PARENT}/other")));
}

#[test]
fn start_points_that_move_during_creation_are_refused_with_rollback() {
    for (dirty, moved) in [(false, "origin/feature"), (true, "refs/heads/moving")] {
        let mut r = World::new();
        next_commit(&mut r);
        r.move_reference(moved, NEXT);
        r.write("/base/repo/untracked", "working");
        r.untracked = vec!["untracked".to_owned()];
        r.moved_start = Some((moved.to_owned(), INITIAL.to_owned()));

        let destination = format!("{TREES}/moving");
        let command = || {
            Commands::New(NewOptions {
                dirty,
                base: if dirty { None } else { Some("origin/feature".to_owned()) },
                json: true,
                path: at(&destination),
                ..named("moving")
            })
        };
        let failure = r.run(command()).unwrap_err();
        assert_eq!(failure.exit_status(), 1, "dirty={dirty}");
        let failure = failure.message();
        assert!(failure.contains("moved"), "dirty={dirty}: {failure}");

        assert!(!r.present(&destination), "dirty={dirty}");
        assert_eq!(r.trees.len(), 1, "dirty={dirty}");
        assert!(r.branches.contains_key("moving"), "dirty={dirty}");
        assert!(r.keeps_its_index(), "dirty={dirty}");
        assert_eq!(r.commit_of("/base/repo", moved).unwrap(), INITIAL);

        // The branch that is left stands where Git left it. Once the start point
        // stays there, the same command succeeds.
        let settled = if dirty { NEXT.to_owned() } else { r.branches["moving"].clone() };
        r.move_reference(moved, &settled);
        r.moved_start = Some((moved.to_owned(), settled.clone()));
        let output = r.run(command()).unwrap();
        let value: Value = serde_json::from_str(&output).unwrap();
        assert_eq!(value["head"], settled.as_str());
        assert_eq!(r.head_at(&destination), settled);
    }
}

#[test]
fn dirty_rejects_other_base_and_nested_repositories_before_creation() {
    let mut r = World::new();
    next_commit(&mut r);

    let failure = r
        .run(Commands::New(NewOptions {
            dirty: true,
            base: Some(INITIAL.to_owned()),
            ..named("bad")
        }))
        .unwrap_err();
    assert_eq!(failure.exit_status(), 2);

    r.directory("/base/repo/nested/.git");
    r.untracked = vec!["nested/".to_owned()];
    assert!(
        r.run(Commands::New(NewOptions { dirty: true, ..named("nested-copy") }))
            .is_err()
    );
    assert!(!r.branches.contains_key("bad"));
    assert!(!r.branches.contains_key("nested-copy"));
    assert!(!r.present(TREES));
}

#[test]
fn registered_nested_worktrees_are_pruned_during_clone() {
    let mut r = World::new();
    r.directory("/base/repo/cache/nested");
    r.write("/base/repo/cache/nested/.git", GIT_FILE);
    r.write("/base/repo/cache/plain", "keep");
    r.trees.push(Tree {
        path: "/base/repo/cache/nested".to_owned(),
        branch: Some("nested".to_owned()),
        head: INITIAL.to_owned(),
        locked: false,
        foreign: false,
    });
    r.ignored = vec!["cache/".to_owned()];

    let tree = r.new_tree(NewOptions { dirty: true, ..named("copy") });

    assert!(r.present(&format!("{tree}/cache/plain")));
    assert!(!r.present(&format!("{tree}/cache/nested")));
}

#[test]
fn target_checkout_and_hook_files_win_including_symlink_parents() {
    let mut r = World::new();
    let mut files = r.commits[INITIAL].clone();
    files.insert(".env".to_owned(), "tracked target".to_owned());
    r.commits.insert(NEXT.to_owned(), files);
    r.branches.insert("other".to_owned(), NEXT.to_owned());
    r.write("/base/repo/.env", "source ignored");
    r.directory("/base/repo/cache");
    r.write("/base/repo/cache/data", "source");
    r.ignored = vec![".env".to_owned(), "cache/".to_owned()];
    r.directory("/base/outside");
    r.hook = Some(|world| world.link("/base/outside", &format!("{PARENT}/other/cache")));

    let tree = r.new_tree(named("other"));

    assert_eq!(r.contents(&format!("{tree}/.env")), "tracked target");
    assert!(matches!(r.items[&format!("{tree}/cache")].node, Node::Link(_)));
    assert!(!r.present("/base/outside/data"));
}

#[test]
fn apfs_population_preserves_read_only_file_and_directory_modes() {
    let mut r = World::new();
    r.directory("/base/repo/cache");
    r.items.get_mut("/base/repo/cache").unwrap().mode = 0o750;
    for (name, mode) in [("read-only", 0o444), ("executable", 0o555)] {
        let path = format!("/base/repo/cache/{name}");
        r.write(&path, "contents");
        r.items.get_mut(&path).unwrap().mode = mode;
    }
    r.ignored = vec!["cache/".to_owned()];

    for dirty in [false, true] {
        let branch = if dirty { "modes-dirty" } else { "modes" };
        let destination = r.new_tree(NewOptions { dirty, ..named(branch) });
        for (name, mode) in [
            ("cache", 0o750),
            ("cache/read-only", 0o444),
            ("cache/executable", 0o555),
        ] {
            assert_eq!(r.items[&format!("{destination}/{name}")].mode, mode);
        }
        assert_eq!(r.contents(&format!("{destination}/cache/read-only")), "contents");
    }
}

#[test]
fn symlinked_repository_parents_work_without_allowing_child_escapes() {
    let mut r = World::new();
    r.directory("/base/actual");
    r.directory("/base/outside");
    r.write("/base/outside/sentinel", "outside");
    r.directory(&parent(PARENT));
    r.link("/base/actual", PARENT);
    r.write("/base/repo/.env", "environment");
    r.ignored = vec![".env".to_owned()];

    for no_clone in [false, true] {
        let branch = if no_clone { "ordinary" } else { "cloned" };
        let tree = r.new_tree(NewOptions { no_clone, ..named(branch) });
        assert_eq!(tree, format!("/base/actual/{branch}"));
        assert_eq!(r.present(&format!("{tree}/.env")), !no_clone);
        assert!(r.present(&format!("{tree}/.git")));
    }

    r.link("/base/outside", "/base/actual/escape");
    let failure = r
        .run(Commands::New(plain("escape/topic")))
        .unwrap_err()
        .message();
    assert!(failure.contains("escape"), "{failure}");
    assert!(!r.present("/base/outside/topic"));

    r.link("/base/actual/cloned", "/base/actual/occupied");
    r.link("/base/actual/absent", "/base/actual/dangling");
    for branch in ["occupied", "dangling"] {
        assert!(r.run(Commands::New(plain(branch))).is_err());
        let item = &r.items[&format!("/base/actual/{branch}")];
        assert!(matches!(item.node, Node::Link(_)));
    }
    assert_eq!(r.contents("/base/outside/sentinel"), "outside");
    assert_eq!(r.contents("/base/actual/cloned/.git"), GIT_FILE);
    assert_eq!(r.contents("/base/actual/ordinary/.git"), GIT_FILE);
}

#[test]
fn symlink_path_creation_preserves_physical_meaning_and_final_collisions() {
    let mut r = World::new();
    r.directory(&format!("{TREES}/sub"));
    r.link(&format!("{TREES}/sub"), "/base/repo/link");

    let created = r.new_tree(NewOptions {
        path: at("link/../missing/created"),
        ..plain("created")
    });
    assert_eq!(created, format!("{TREES}/missing/created"));
    assert!(!r.present("/base/repo/missing"));

    r.link(&created, "/base/repo/alias");
    assert_eq!(r.run(path_of("alias")).unwrap(), format!("{created}\n"));
    assert!(
        r.run(Commands::New(NewOptions { path: at("alias"), ..plain("occupied") }))
            .is_err()
    );

    r.link(&format!("{TREES}/absent"), "/base/repo/dangling");
    assert!(
        r.run(Commands::New(NewOptions { path: at("dangling"), ..plain("dangling") }))
            .is_err()
    );
    assert_eq!(r.target("/base/repo/dangling"), format!("{TREES}/absent"));

    assert!(
        r.run(Commands::New(NewOptions {
            path: at("link/../absent/../ambiguous"),
            ..plain("ambiguous")
        }))
        .is_err()
    );
    assert!(!r.present(&format!("{TREES}/ambiguous")));
    assert!(!r.present("/base/repo/ambiguous"));

    assert!(
        r.run(Commands::New(NewOptions {
            path: at("tracked/child"),
            ..plain("not-directory")
        }))
        .is_err()
    );

    assert_eq!(r.contents(&format!("{created}/.git")), GIT_FILE);
}

#[test]
fn remove_leaves_branch_and_delegates_dirty_and_lock_refusals() {
    let mut r = World::new();
    let tree = r.new_tree(plain("fix"));
    r.write(&format!("{tree}/tracked"), "dirty");
    assert!(r.run(removal("fix")).is_err());

    r.trees[1].locked = true;
    let forced = |name: &str| Commands::Remove { worktree: name.to_owned(), force: true };
    assert!(r.run(forced("fix")).is_err());
    r.trees[1].locked = false;
    r.run(forced("fix")).unwrap();
    assert!(!r.present(&tree));
    assert!(r.branches.contains_key("fix"));

    assert!(r.run(forced("main")).is_err());
    assert!(r.run(removal("main")).is_err());
}

#[test]
fn rollback_retains_a_new_branch_for_retry_and_never_reuses_a_path() {
    let mut r = World::new();
    r.write("/base/repo/.env", "env");
    r.ignored = vec![".env".to_owned()];
    r.hook_failure = Some("hook failed\n".to_owned());

    let failure = r.run(Commands::New(named("retry"))).unwrap_err().message();
    assert!(failure.contains("hook failed"));
    assert!(failure.contains("retained"));
    assert!(r.branches.contains_key("retry"));
    assert!(!r.present(&format!("{PARENT}/retry")));

    r.hook_failure = None;
    let tree = r.new_tree(NewOptions { dirty: true, ..named("retry") });
    assert_eq!(r.contents(&format!("{tree}/.env")), "env");

    let existing = format!("{TREES}/occupied");
    r.directory(&existing);
    r.write(&format!("{existing}/keep"), "keep");
    assert!(
        r.run(Commands::New(NewOptions { path: at(&existing), ..named("another") }))
            .is_err()
    );
    assert_eq!(r.contents(&format!("{existing}/keep")), "keep");
}

#[test]
fn closed_stderr_rolls_back_partial_creation_without_panicking() {
    for hook_fails in [false, true] {
        for no_clone in [false, true] {
            let mut r = World::new();
            r.write("/base/repo/.env", "environment");
            r.ignored = vec![".env".to_owned()];
            if hook_fails {
                r.hook_failure = Some("hook-failure\n".to_owned());
            }
            r.notice = "Preparing worktree (new branch 'closed-stderr')\n".to_owned();
            r.stderr_closed = true;

            let destination = format!("{TREES}/closed-stderr");
            let failure = r
                .run(Commands::New(NewOptions {
                    path: at(&destination),
                    no_clone,
                    ..named("closed-stderr")
                }))
                .unwrap_err();
            assert_eq!(failure.exit_status(), 1);
            assert!(!r.present(&destination));
            assert!(r.keeps_its_index());
            assert_eq!(r.contents("/base/repo/tracked"), "base\n");
            assert!(r.branches.contains_key("closed-stderr"));
            assert_eq!(r.trees.len(), 1);
        }
    }
}

#[test]
fn source_environment_is_honored_without_redirecting_destination_git() {
    let mut r = World::new();
    r.directory("/base/repo/subdirectory");
    r.write("/base/repo/tracked", "working");
    r.write("/base/repo/.env", "excluded by command-line config");
    r.ignored = vec![".env".to_owned()];
    r.config.push(("gwt.exclude".to_owned(), ".env".to_owned()));
    let source_index = r.index.clone();

    let output = r
        .run_in(
            "/base/repo/subdirectory",
            Commands::New(NewOptions {
                dirty: true,
                path: at("../../context-tree"),
                ..named("context")
            }),
        )
        .unwrap();
    let destination = "/base/context-tree";
    assert_eq!(output.trim_end(), destination);
    assert_eq!(r.contents(&format!("{destination}/tracked")), "working");
    assert!(!r.present(&format!("{destination}/.env")));
    assert!(
        r.contexts
            .contains(&(GitContext::Destination, format!("reset --mixed {INITIAL}")))
    );
    assert_eq!(r.index, source_index);
    assert_eq!(r.contents("/base/repo/tracked"), "working");

    for (context, args) in &r.contexts {
        let expected = if args.starts_with("worktree add") || args.starts_with("worktree remove") {
            GitContext::WorktreeMutation
        } else if args.starts_with("reset") || args == "rev-parse --verify HEAD" {
            GitContext::Destination
        } else {
            GitContext::Source
        };
        assert_eq!(*context, expected, "{args}");
    }
    assert!(
        GitContext::Destination
            .removed_environment()
            .contains(&"GIT_DIR".to_owned())
    );
    assert_eq!(GitContext::WorktreeMutation.removed_environment(), ["GIT_INDEX_FILE"]);
    assert!(GitContext::Source.removed_environment().is_empty());
    assert_eq!(GitContext::Destination.removed_environment().len(), 14);
}

#[test]
fn path_rejects_stale_nested_checkouts_instead_of_discovering_the_parent() {
    let mut r = World::new();
    let tree = r.new_tree(NewOptions { path: at("nested"), ..plain("nested") });
    r.discard(&format!("{tree}/.git"));

    for json in [false, true] {
        let failure = r
            .run(Commands::Path {
                worktree: Some("nested".to_owned()),
                main_worktree: false,
                json,
            })
            .unwrap_err();
        assert_eq!(failure.exit_status(), 1);
        let failure = failure.message();
        assert!(failure.contains("accessible working tree"), "{failure}");
    }
    assert!(r.keeps_its_index());
    assert_eq!(r.branch_at("/base/repo"), "main");
    assert_eq!(r.contents(&format!("{tree}/tracked")), "base\n");
}

#[test]
fn ignored_root_symlinks_are_leaves_even_when_dangling_or_cyclic() {
    let mut r = World::new();
    r.directory("/base/external-directory");
    r.write("/base/external-directory/sentinel", "outside");
    let links = [
        ("ignored-file", "/base/external-directory/sentinel"),
        ("ignored-directory", "/base/external-directory"),
        ("ignored-dangling", "/base/external-directory/absent"),
        ("ignored-relative", "tracked"),
        ("ignored-internal", "/base/repo/tracked"),
        ("ignored-cycle", "ignored-cycle"),
    ];
    for (name, target) in links {
        r.link(target, &format!("/base/repo/{name}"));
        r.ignored.push(name.to_owned());
    }

    for dirty in [false, true] {
        let branch = if dirty { "links-dirty" } else { "links" };
        let output = r
            .run(Commands::New(NewOptions { dirty, json: true, ..named(branch) }))
            .unwrap();
        let value: Value = serde_json::from_str(&output).unwrap();
        let tree = value["path"].as_str().unwrap();
        assert_eq!(value["clone"]["symlinks"], 6);
        for (name, target) in links {
            let expected = if name == "ignored-internal" {
                format!("{tree}/tracked")
            } else {
                target.to_owned()
            };
            assert_eq!(r.target(&format!("{tree}/{name}")), expected, "{name}");
        }
        assert_eq!(r.contents("/base/external-directory/sentinel"), "outside");
    }

    let tree = r.new_tree(NewOptions {
        exclude: vec!["ignored-directory".to_owned()],
        ..named("excluded-link")
    });
    assert!(!r.present(&format!("{tree}/ignored-directory")));
    assert_eq!(
        r.target(&format!("{tree}/ignored-dangling")),
        "/base/external-directory/absent"
    );
    assert_eq!(r.contents("/base/external-directory/sentinel"), "outside");
}

#[test]
fn cloned_replacement_symlink_never_changes_external_permissions() {
    let mut r = World::new();
    r.write("/base/external", "private sentinel");
    r.items.get_mut("/base/external").unwrap().mode = 0o600;
    r.write("/base/repo/.env", "planned regular file");
    r.ignored = vec![".env".to_owned()];
    r.hook = Some(|world| world.link("/base/external", "/base/repo/.env"));

    let destination = format!("{TREES}/replacement");
    let failure = r
        .run(Commands::New(NewOptions {
            json: true,
            path: at(&destination),
            ..named("replacement")
        }))
        .unwrap_err()
        .message();

    assert!(failure.contains("regular file"), "{failure}");
    assert!(!r.present(&destination));
    assert!(r.keeps_its_index());
    assert_eq!(r.items["/base/external"].mode, 0o600);
    assert_eq!(r.contents("/base/external"), "private sentinel");
    assert_eq!(r.contents("/base/repo/tracked"), "base\n");
    assert!(r.branches.contains_key("replacement"));
    assert_eq!(r.trees.len(), 1);
}

#[test]
fn special_files_are_reported_and_left_out() {
    let mut r = World::new();
    r.put("/base/repo/socket", Node::Special, 0o644);
    r.ignored = vec!["socket".to_owned()];

    let tree = r.new_tree(named("special"));

    assert!(!r.present(&format!("{tree}/socket")));
    assert_eq!(
        text(&r.stderr),
        "git-wt: skipping special file /base/repo/socket\n"
    );
}

#[test]
fn unsupported_volumes_are_refused_before_anything_is_created() {
    let mut r = World::new();
    r.clone_error = Some(Errno::CrossDevice);

    let failure = r.run(Commands::New(named("volume"))).unwrap_err();

    assert_eq!(
        failure.message(),
        "APFS cloning unavailable; use --no-clone for an ordinary worktree: Operation not supported (os error 45)"
    );
    assert!(!r.branches.contains_key("volume"));
    assert!(!r.present(&format!("{PARENT}/volume")));
    assert!(!r.items.keys().any(|item| item.contains(".git-wt-probe-")));
}

#[test]
fn bad_requests_are_misuse() {
    let mut r = World::new();
    for branch in ["a..b", "-option", "before@{-1}"] {
        let failure = r.run(Commands::New(plain(branch))).unwrap_err();
        assert_eq!(failure.exit_status(), 2, "{branch}");
    }
    for value in ["/absolute", "../up", "."] {
        let failure = r
            .run(Commands::New(NewOptions {
                exclude: vec![value.to_owned()],
                ..plain("fix")
            }))
            .unwrap_err();
        assert_eq!(failure.exit_status(), 2, "{value}");
    }
    assert!(!r.branches.contains_key("fix"));
}

#[test]
fn main_and_current_worktrees_are_not_removed() {
    let mut r = World::new();
    let tree = r.new_tree(plain("fix"));

    for (cwd, selector) in [("/base/repo", "main"), (tree.as_str(), "fix")] {
        assert_eq!(
            r.run_in(cwd, removal(selector)).unwrap_err().message(),
            "cannot remove the primary or current worktree"
        );
    }
    assert_eq!(
        r.run(removal("absent")).unwrap_err().message(),
        "no registered worktree matches that branch or path"
    );
    assert_eq!(r.trees.len(), 2);
}

#[test]
fn an_occupied_place_is_not_cleaned_up() {
    let mut r = World::new();
    let mut runner = Runner::new(Cli { command: Commands::New(plain("fix")) });
    let place = format!("{PARENT}/fix");
    let failure = loop {
        match runner.next() {
            Progress::Perform(request) => {
                if let Request::CreateDirectory(path) = &request {
                    // Someone else takes the place first.
                    r.directory(&text(path));
                    r.write(&format!("{place}/winner"), "winner");
                }
                let reply = r.perform(request);
                runner.answer(reply);
            }
            Progress::Working => {}
            Progress::Finished(outcome) => break outcome.unwrap_err(),
            Progress::Stray => panic!("stray answer"),
        }
    };
    assert_eq!(
        failure.message(),
        "reserving destination: File exists (os error 17)"
    );
    assert_eq!(r.contents(&format!("{place}/winner")), "winner");
}

#[test]
fn a_stolen_place_is_not_cleaned_up_either() {
    let mut r = World::new();
    r.hook_failure = Some("hook failed\n".to_owned());
    r.hook = Some(|world| {
        let place = format!("{PARENT}/fix");
        world.discard(&place);
        world.directory(&place);
        world.write(&format!("{place}/other"), "other");
    });

    let failure = r.run(Commands::New(plain("fix"))).unwrap_err().message();

    assert!(failure.starts_with("creation failed: git worktree: hook failed"), "{failure}");
    assert!(failure.contains("destination ownership changed; refusing cleanup"), "{failure}");
    assert_eq!(r.contents(&format!("{PARENT}/fix/other")), "other");
}

#[test]
fn a_creation_is_answered_in_full() {
    let mut r = World::new();
    r.write("/base/repo/.env", "secret");
    r.directory("/base/repo/cache");
    r.write("/base/repo/cache/data", "1234");
    r.link("data", "/base/repo/cache/link");
    r.ignored = vec![".env".to_owned(), "cache/".to_owned()];

    let answer = r
        .run(Commands::New(NewOptions { json: true, ..named("fix") }))
        .unwrap();

    assert_eq!(
        answer,
        format!(
            "{{\"branch\":\"fix\",\"clone\":{{\"files\":2,\"logical_bytes\":10,\"symlinks\":1}},\"head\":\"{INITIAL}\",\"mode\":\"ignored\",\"path\":\"{PARENT}/fix\",\"source\":\"/base/repo\"}}\n"
        )
    );
}

#[test]
fn answers_of_another_kind_are_noticed() {
    let mut runner = Runner::new(Cli { command: Commands::List { json: false } });
    assert!(matches!(
        runner.next(),
        Progress::Perform(Request::CurrentDirectory)
    ));
    runner.answer(Reply::Home(None));
    assert!(matches!(runner.next(), Progress::Stray));
}

#[test]
fn a_command_goes_on_where_it_stopped() {
    let mut r = World::new();
    let cli = Cli { command: Commands::List { json: true } };
    let mut log: Vec<Reply> = Vec::new();
    let mut asked = 0;
    let answer = loop {
        let mut io = Session::new(&log);
        match git_wt::execute(&mut io, &cli) {
            Ok(answer) => break answer,
            Err(Stop::Ask(request)) => {
                asked += 1;
                log.push(r.perform(request));
            }
            Err(other) => panic!("{other:?}"),
        }
    };
    assert_eq!(asked, log.len());
    log.push(Reply::Home(None));
    let mut io = Session::new(&log);
    assert_eq!(git_wt::execute(&mut io, &cli).unwrap(), answer);
    assert!(!io.is_over());
    let listing: Value = serde_json::from_str(&answer).unwrap();
    assert_eq!(listing[0]["path"], "/base/repo");
    assert_eq!(listing[0]["primary"], true);
    assert_eq!(listing[0]["current"], true);
    assert_eq!(listing[0]["lock_reason"], Value::Null);
}

/// What a function comes to when the world answers what it asks.
fn settle<T>(world: &mut World, run: impl Fn(&mut Session) -> Result<T, Stop>) -> Result<T, Error> {
    let mut replies = Vec::new();
    loop {
        let outcome = run(&mut Session::new(&replies));
        match outcome {
            Ok(value) => return Ok(value),
            Err(Stop::Fail(failure)) => return Err(failure),
            Err(Stop::Ask(request)) => replies.push(world.perform(request)),
            Err(Stop::Stray) => panic!("stray answer"),
        }
    }
}

#[test]
fn an_absolute_form_is_final() {
    let mut r = World::new();
    r.directory("/base/trees/sub");
    r.link("/base/trees/sub", "/base/repo/link");
    r.link("/base/absent", "/base/repo/dangling");
    for (path, expected) in [
        ("link/../new", "/base/trees/new"),
        ("link/new", "/base/trees/sub/new"),
        ("link", "/base/repo/link"),
        ("dangling", "/base/repo/dangling"),
        ("missing/deep/new", "/base/repo/missing/deep/new"),
        ("/base/./repo//tracked", "/base/repo/tracked"),
        ("link/..", "/base/trees"),
    ] {
        let form = settle(&mut r, |io| absolute(io, path.as_bytes(), b"/base/repo")).unwrap();
        assert_eq!(text(&form), expected, "{path}");
        let again = settle(&mut r, |io| absolute(io, &form, b"/base/elsewhere")).unwrap();
        assert_eq!(text(&again), expected, "{path}");
    }
}

/// The files of a worktree that is created.
fn planned(dirty: bool, exclude: &[&str]) -> Vec<String> {
    let mut r = World::new();
    for directory in ["cache/a/deep", "cache/b", "build"] {
        r.directory(&format!("/base/repo/{directory}"));
    }
    for file in [
        ".env",
        "build/out",
        "cache/a/deep/x",
        "cache/a/kept",
        "cache/a-1",
        "cache/b/y",
        "untracked",
    ] {
        r.write(&format!("/base/repo/{file}"), file);
    }
    r.index.insert("cache/a/kept".to_owned());
    r.untracked = vec!["untracked".to_owned()];
    r.ignored = vec![
        ".env".to_owned(),
        "build/".to_owned(),
        "cache/a/deep/".to_owned(),
        "cache/a-1".to_owned(),
        "cache/b/".to_owned(),
    ];
    let tree = r.new_tree(NewOptions {
        dirty,
        exclude: exclude.iter().map(|value| (*value).to_owned()).collect(),
        ..named("fix")
    });
    let prefix = format!("{tree}/");
    r.items
        .iter()
        .filter(|(_, item)| matches!(item.node, Node::File(_)))
        .filter_map(|(path, _)| path.strip_prefix(&prefix))
        .map(str::to_owned)
        .collect()
}

#[test]
fn exclusions_take_out_what_they_leave_out_and_nothing_else() {
    for dirty in [false, true] {
        let mut all = planned(dirty, &[]);
        let some = planned(dirty, &["cache/a", "build", "untracked"]);
        all.retain(|path| !under(path, "build") && !under(path, "cache/a/deep"));
        assert_eq!(some, all, "dirty={dirty}");
        assert!(some.contains(&"cache/b/y".to_owned()));
        assert_eq!(some.contains(&"cache/a/kept".to_owned()), dirty);
        assert_eq!(some.contains(&"untracked".to_owned()), dirty);
    }
}

#[test]
fn only_ignored_paths_are_planned_without_changes() {
    let carried: Vec<String> = planned(false, &[])
        .into_iter()
        .filter(|path| !["tracked", "deleted", ".gitignore", ".git"].contains(&path.as_str()))
        .collect();
    assert_eq!(carried, [".env", "build/out", "cache/a-1", "cache/a/deep/x", "cache/b/y"]);
}

#[test]
fn entries_are_planned_in_order() {
    let mut r = World::new();
    for path in ["cache-1", "cache/b", "cache/a/deep", "cache/.hidden"] {
        let path = format!("/base/repo/{path}");
        if !r.present(&parent(&path)) {
            r.directory(&parent(&path));
        }
        r.write(&path, "x");
    }
    r.ignored = vec!["cache-1".to_owned(), "cache/".to_owned(), "cache/b".to_owned()];

    let mut runner = Runner::new(Cli { command: Commands::New(named("fix")) });
    let mut cloned = Vec::new();
    loop {
        match runner.next() {
            Progress::Perform(request) => {
                if let Request::Clone { destination, .. } = &request {
                    cloned.push(text(destination));
                }
                let reply = r.perform(request);
                runner.answer(reply);
            }
            Progress::Working => {}
            Progress::Finished(outcome) => {
                outcome.unwrap();
                break;
            }
            Progress::Stray => panic!("stray answer"),
        }
    }
    let names: Vec<&str> = cloned
        .iter()
        .filter_map(|path| path.strip_prefix(&format!("{PARENT}/fix/")))
        .collect();
    assert_eq!(names, ["cache/.hidden", "cache/a/deep", "cache/b", "cache-1"]);
}

fn entry(kind: FileKind, disposable: bool) -> Entry {
    Entry {
        relative: b"entry".to_vec(),
        kind,
        disposable,
        directory_permissions: if kind == FileKind::Directory { Some(0o700) } else { None },
    }
}

fn populate(r: &mut World, source: &str, destination: &str, entries: Vec<Entry>) -> Result<git_wt::clone::Stats, Error> {
    let mut work = git_wt::populator::Populator::new(
        source.as_bytes().to_vec(),
        destination.as_bytes().to_vec(),
        entries,
    );
    loop {
        match work.advance() {
            Progress::Perform(request) => {
                let reply = r.perform(request);
                work.answer(reply);
            }
            Progress::Working => {}
            Progress::Finished(outcome) => return outcome,
            Progress::Stray => panic!("stray answer"),
        }
    }
}

#[test]
fn a_plan_and_a_population_come_out_where_their_answers_lead() {
    let mut r = World::new();
    r.directory("/base/repo/cache/deep");
    r.write("/base/repo/cache/deep/x", "four");
    r.write("/base/repo/cache/a", "one");
    r.link("a", "/base/repo/cache/link");
    r.write("/base/repo/.env", "env");
    r.directory("/base/new");

    let mut planner = git_wt::planner::Planner::new(git_wt::clone::Survey {
        source: b"/base/repo".to_vec(),
        destination: b"/base/new".to_vec(),
        dirty: false,
        indexed: Vec::new(),
        protected: Vec::new(),
        ignored: vec![b"cache/".to_vec(), b".env".to_vec()],
        exclude: vec![b"cache/a".to_vec()],
        nested: Vec::new(),
    });
    let entries = loop {
        match planner.advance() {
            Progress::Perform(request) => {
                let reply = r.perform(request);
                planner.answer(reply);
            }
            Progress::Working => {}
            Progress::Finished(outcome) => break outcome.unwrap(),
            Progress::Stray => panic!("stray answer"),
        }
    };
    let paths: Vec<String> = entries.iter().map(|entry| text(&entry.relative)).collect();
    assert_eq!(paths, [".env", "cache", "cache/deep", "cache/deep/x", "cache/link"]);

    let stats = populate(&mut r, "/base/repo", "/base/new", entries).unwrap();
    assert_eq!((stats.files, stats.logical_bytes, stats.symlinks), (2, 7, 1));
    assert_eq!(r.contents("/base/new/cache/deep/x"), "four");
    assert_eq!(r.target("/base/new/cache/link"), "a");
    assert!(!r.present("/base/new/cache/a"));
}

#[test]
fn missing_sources_are_only_skipped_when_disposable() {
    for kind in [FileKind::File, FileKind::Symlink, FileKind::Directory] {
        for disposable in [false, true] {
            let mut r = World::new();
            r.directory("/base/source");
            r.directory("/base/destination");

            let result = populate(
                &mut r,
                "/base/source",
                "/base/destination",
                vec![entry(kind, disposable)],
            );
            assert_eq!(result.is_ok(), disposable, "{kind:?}: {result:?}");
        }
    }
}

#[test]
fn missing_destination_and_changed_source_types_still_fail() {
    let mut r = World::new();
    r.directory("/base/source");
    r.write("/base/source/entry", "contents");

    // A missing destination must not be taken for a missing source.
    let failure = populate(
        &mut r,
        "/base/source",
        "/base/destination",
        vec![entry(FileKind::File, true)],
    )
    .unwrap_err();
    assert_eq!(
        failure.message(),
        "cloning /base/source/entry: No such file or directory (os error 2)"
    );

    r.directory("/base/destination");
    r.discard("/base/source/entry");
    r.link("/base/destination", "/base/source/entry");
    assert!(
        populate(
            &mut r,
            "/base/source",
            "/base/destination",
            vec![entry(FileKind::Directory, true)],
        )
        .is_err()
    );

    let ask = |r: &mut World, kind: ErrorKind| loop {
        let mut log: Vec<Reply> = Vec::new();
        let gone = loop {
            let mut io = Session::new(&log);
            match git_wt::clone::disappeared(&mut io, kind, b"/base/source/entry", true) {
                Ok(gone) => break gone,
                Err(Stop::Ask(request)) => log.push(r.perform(request)),
                Err(other) => panic!("{other:?}"),
            }
        };
        break gone;
    };
    assert!(!ask(&mut r, ErrorKind::NotFound));
    r.discard("/base/source/entry");
    assert!(!ask(&mut r, ErrorKind::Other));
    assert!(ask(&mut r, ErrorKind::NotFound));
}

#[test]
fn disappearing_directory_preserves_permissions_on_already_cloned_contents() {
    let mut r = World::new();
    r.directory("/base/source");
    r.directory("/base/destination/cache");
    r.put(
        "/base/destination/cache/credentials",
        Node::File("private sentinel".to_owned()),
        0o644,
    );
    let entries = vec![Entry {
        relative: b"cache".to_vec(),
        kind: FileKind::Directory,
        disposable: true,
        directory_permissions: Some(0o700),
    }];

    let mut log: Vec<Reply> = Vec::new();
    loop {
        let mut io = Session::new(&log);
        match git_wt::populator::restore_directory_permissions(
            &mut io,
            b"/base/source",
            b"/base/destination",
            &entries,
            b"/base/destination/cache",
        ) {
            Ok(()) => break,
            Err(Stop::Ask(request)) => log.push(r.perform(request)),
            Err(other) => panic!("{other:?}"),
        }
    }

    assert_eq!(r.items["/base/destination/cache"].mode, 0o700);
    assert_eq!(r.contents("/base/destination/cache/credentials"), "private sentinel");
    assert_eq!(r.items["/base/destination/cache/credentials"].mode, 0o644);
}

#[test]
fn clone_is_independent_preserves_mode_and_refuses_overwrite() {
    let mut r = World::new();
    let data = "*".repeat(16_384);
    r.put("/base/source", Node::File(data.clone()), 0o755);

    let clone = |r: &mut World| {
        let mut log: Vec<Reply> = Vec::new();
        loop {
            let mut io = Session::new(&log);
            match git_wt::native::clone_file(&mut io, b"/base/source", b"/base/clone") {
                Ok(outcome) => break outcome,
                Err(Stop::Ask(request)) => log.push(r.perform(request)),
                Err(other) => panic!("{other:?}"),
            }
        }
    };

    assert_eq!(clone(&mut r).unwrap(), data.len() as u64);
    assert_eq!(r.contents("/base/clone"), data);
    assert_eq!(r.items["/base/clone"].mode & 0o777, 0o755);
    assert_eq!(clone(&mut r).unwrap_err().kind, ErrorKind::AlreadyExists);

    r.clone_error = Some(Errno::NotSupported);
    assert_eq!(clone(&mut r).unwrap_err().kind, ErrorKind::Unsupported);
}

#[test]
fn looking_changes_nothing() {
    let mut r = World::new();
    r.new_tree(plain("fix"));
    r.changes.clear();

    r.run(Commands::List { json: true }).unwrap();
    r.run(Commands::List { json: false }).unwrap();
    r.run(path_of("fix")).unwrap();
    r.run(main_path()).unwrap();
    assert!(r.run(path_of("absent")).is_err());

    assert!(r.changes.is_empty(), "{:?}", r.changes);
}

#[test]
fn refused_creations_change_nothing() {
    let mut r = World::new();
    r.directory("/base/repo/nested/.git");
    r.directory("/base/occupied");
    for options in [
        plain("a..b"),
        plain("-x"),
        NewOptions { base: Some("absent".to_owned()), ..plain("fix") },
        NewOptions { exclude: vec!["..".to_owned()], ..plain("fix") },
        NewOptions { path: at("/base/occupied"), ..plain("fix") },
        NewOptions { dirty: true, ..named("fix") },
    ] {
        assert!(r.run(Commands::New(options)).is_err());
    }
    assert!(r.changes.is_empty(), "{:?}", r.changes);
}

#[test]
fn ordinary_worktrees_carry_nothing() {
    let mut r = World::new();
    r.write("/base/repo/.env", "secret");
    r.ignored = vec![".env".to_owned()];

    let tree = r.new_tree(plain("ordinary"));

    assert!(!r.present(&format!("{tree}/.env")));
    assert_eq!(r.changes, ["create", "create", "git"]);
}

#[test]
fn dirty_creations_reset_the_index_last() {
    let mut r = World::new();
    r.write("/base/repo/tracked", "changed\n");

    let tree = r.new_tree(NewOptions { dirty: true, ..named("dirty") });

    assert_eq!(r.contents(&format!("{tree}/tracked")), "changed\n");
    assert_eq!(
        r.contexts.last().unwrap(),
        &(GitContext::Destination, format!("reset --mixed {INITIAL}"))
    );
    assert!(
        r.contexts
            .iter()
            .any(|(_, args)| *args
                == format!("worktree add --no-checkout -b dirty -- {tree} {INITIAL}"))
    );
    assert_eq!(r.changes[..4], ["create", "scratch", "clone", "drop"]);
}

#[test]
fn a_failed_cleanup_is_told() {
    let mut r = World::new();
    r.hook_failure = Some("hook failed\n".to_owned());
    r.hook = Some(|world| world.trees.last_mut().unwrap().locked = true);

    let failure = r.run(Commands::New(plain("fix"))).unwrap_err().message();

    assert_eq!(
        failure,
        format!("creation failed: git worktree: hook failed; new branch fix retained; cleanup failed for {PARENT}/fix: git worktree: fatal: cannot remove a locked working tree")
    );
}

#[test]
fn dirty_planning_only_tolerates_disappearing_ignored_contents() {
    for (entry, should_succeed) in [
        (".env", true),
        ("cache/volatile", true),
        ("tracked", false),
        ("untracked", false),
        ("work", false),
        ("cache/protected", false),
    ] {
        let mut r = World::new();
        r.write("/base/repo/.env", "environment");
        r.write("/base/repo/untracked", "working file");
        for directory in ["cache/volatile", "cache/protected", "work"] {
            r.directory(&format!("/base/repo/{directory}"));
            r.write(&format!("/base/repo/{directory}/keep"), "contents");
        }
        // An ignored directory can still contain tracked working contents.
        r.index.insert("cache/protected/keep".to_owned());
        r.untracked = vec!["untracked".to_owned(), "work/keep".to_owned()];
        r.ignored = vec![".env".to_owned(), "cache/volatile/".to_owned()];
        r.vanish = Some(format!("/base/repo/{entry}"));

        let destination = format!("{TREES}/vanished-dirty");
        let output = r.run(Commands::New(NewOptions {
            dirty: true,
            json: true,
            path: at(&destination),
            ..named("vanished-dirty")
        }));

        assert!(!r.present(&format!("/base/repo/{entry}")));
        assert_eq!(output.is_ok(), should_succeed, "{entry}: {output:?}");
        assert!(r.keeps_its_index());
        match output {
            Ok(output) => {
                let result: Value = serde_json::from_str(&output).unwrap();
                assert_eq!(result["mode"], "dirty");
                assert!(r.present(&format!("{destination}/.git")));
                for protected in ["tracked", "untracked", "work/keep", "cache/protected/keep"] {
                    assert!(r.present(&format!("{destination}/{protected}")), "{protected}");
                }
            }
            Err(failure) => {
                assert_eq!(failure.exit_status(), 1);
                assert!(!r.present(&destination));
                assert!(failure.message().contains("retained"));
            }
        }
        assert!(r.branches.contains_key("vanished-dirty"));
    }
}

#[test]
fn path_rejects_an_unrelated_repository_at_a_registered_location() {
    let mut r = World::new();
    let tree = r.new_tree(plain("replaced"));
    r.discard(&format!("{tree}/.git"));
    r.directory(&format!("{tree}/.git"));
    r.write(&format!("{tree}/.git/config"), "[core]\n");
    r.write(&format!("{tree}/.git/HEAD"), "ref: refs/heads/foreign\n");
    r.write(&format!("{tree}/sentinel"), "foreign repository");
    r.trees[1].foreign = true;

    for json in [false, true] {
        let failure = r
            .run(Commands::Path {
                worktree: Some("replaced".to_owned()),
                main_worktree: false,
                json,
            })
            .unwrap_err();
        assert_eq!(failure.exit_status(), 1);
        assert_eq!(
            failure.message(),
            format!("Git did not resolve an accessible working tree at {tree}: selected working tree belongs to a different repository")
        );
    }
    assert_eq!(r.contents(&format!("{tree}/sentinel")), "foreign repository");
    assert_eq!(r.contents(&format!("{tree}/.git/config")), "[core]\n");
    assert_eq!(r.contents(&format!("{tree}/.git/HEAD")), "ref: refs/heads/foreign\n");
}

#[test]
fn dirty_contents_deletions_staging_and_symlinks() {
    let mut r = World::new();
    r.link("/base/repo/tracked", "/base/repo/tracked-link");
    r.index.insert("tracked-link".to_owned());
    r.put("/base/repo/tracked", Node::File("working".to_owned()), 0o755);
    r.discard("/base/repo/deleted");
    r.write("/base/repo/untracked", "\u{0}\u{ff}\u{0}");
    r.write("/base/repo/.env", "env");
    r.link("tracked", "/base/repo/relative-link");
    r.link("/outside/path", "/base/repo/external-link");
    r.untracked = vec![
        "untracked".to_owned(),
        "relative-link".to_owned(),
        "external-link".to_owned(),
    ];
    r.ignored = vec![".env".to_owned()];

    let tree = r.new_tree(NewOptions { dirty: true, ..named("dirty") });

    assert_eq!(r.contents(&format!("{tree}/tracked")), "working");
    assert_eq!(r.items[&format!("{tree}/tracked")].mode & 0o777, 0o755);
    assert!(!r.present(&format!("{tree}/deleted")));
    assert_eq!(
        r.contents(&format!("{tree}/untracked")),
        "\u{0}\u{ff}\u{0}"
    );
    assert_eq!(r.target(&format!("{tree}/tracked-link")), format!("{tree}/tracked"));
    assert_eq!(r.target(&format!("{tree}/relative-link")), "tracked");
    assert_eq!(r.target(&format!("{tree}/external-link")), "/outside/path");
    assert!(
        r.contexts
            .contains(&(GitContext::Destination, format!("reset --mixed {INITIAL}")))
    );
    assert_eq!(r.resets, [tree]);
    assert!(r.keeps_its_index());
}

#[test]
fn clone_source_ignored_even_when_target_does_not_ignore() {
    let mut r = World::new();
    let mut files = r.commits[INITIAL].clone();
    files.insert(".gitignore".to_owned(), "cache/\n".to_owned());
    r.commits.insert(NEXT.to_owned(), files);
    r.branches.insert("other".to_owned(), NEXT.to_owned());
    r.write("/base/repo/.env", "local environment");
    r.ignored = vec![".env".to_owned()];
    r.directory("/base/repo/.git/info");
    r.write("/base/repo/.git/info/exclude", "");

    let tree = r.new_tree(named("other"));

    assert_eq!(r.contents(&format!("{tree}/.env")), "local environment");
    assert_eq!(r.contents(&format!("{tree}/.gitignore")), "cache/\n");
    assert!(!r.commits[&r.head_at(&tree)].contains_key(".env"));
    assert_eq!(r.contents("/base/repo/.git/info/exclude"), "");
}

#[test]
fn source_is_current_linked_worktree_and_paths_survive_git_moves() {
    let mut r = World::new();
    let tree = r.new_tree(plain("feature"));
    let moved = format!("{TREES}/moved");
    let items: Vec<(String, Item)> = r
        .items
        .iter()
        .filter(|(path, _)| under(path, &tree))
        .map(|(path, item)| (path.replacen(&tree, &moved, 1), item.clone()))
        .collect();
    r.discard(&tree);
    r.items.extend(items);
    r.write(&format!("{moved}/.env"), "linked env");
    r.ignored = vec![".env".to_owned()];
    let mut files = r.commits[INITIAL].clone();
    files.insert("tracked".to_owned(), "linked commit".to_owned());
    r.commits.insert(NEXT.to_owned(), files);
    r.branches.insert("feature".to_owned(), NEXT.to_owned());
    r.write(&format!("{moved}/tracked"), "linked commit");
    r.trees[1].path = moved.clone();
    r.trees[1].head = NEXT.to_owned();

    let child = r
        .run_in(
            &moved,
            Commands::New(NewOptions { no_clone: false, ..unnamed() }),
        )
        .unwrap();
    let child = child.trim_end_matches('\n');

    assert_eq!(r.contents(&format!("{child}/.env")), "linked env");
    assert_eq!(r.head_at(child), NEXT);
    assert_eq!(r.run(path_of("feature")).unwrap(), format!("{moved}\n"));
    assert_eq!(r.run_in(child, main_path()).unwrap(), "/base/repo\n");

    let tree = r.trees.iter_mut().find(|tree| tree.path == moved).unwrap();
    tree.branch = Some("renamed".to_owned());
    assert!(r.run(path_of("renamed")).is_ok());
}

#[test]
fn symlink_parent_selectors_remove_only_the_physically_named_worktree() {
    let mut r = World::new();
    let wrong = "/base/repo/victim";
    let intended = format!("{TREES}/victim");
    r.directory(&format!("{TREES}/sub"));
    assert_eq!(
        r.new_tree(NewOptions { path: at(wrong), ..plain("wrong") }),
        wrong
    );
    assert_eq!(
        r.new_tree(NewOptions { path: at(&intended), ..plain("intended") }),
        intended
    );
    r.write(&format!("{wrong}/.env"), "must survive");
    r.link(&format!("{TREES}/sub"), "/base/repo/link");

    assert_eq!(r.run(path_of("link/../victim")).unwrap(), format!("{intended}\n"));
    r.run(Commands::Remove { worktree: "link/../victim".to_owned(), force: true })
        .unwrap();

    assert!(!r.present(&intended));
    assert_eq!(r.contents(&format!("{wrong}/.env")), "must survive");
    assert_eq!(r.branch_at(wrong), "wrong");
}

#[test]
fn ownership_inspection_failure_preserves_the_original_hook_error() {
    let mut r = World::new();
    r.directory(TREES);
    r.hook_failure = Some("UNIQUE_PRIMARY_HOOK_FAILURE\n".to_owned());
    r.hook = Some(|world| {
        let place = format!("{TREES}/inaccessible");
        world.items.get_mut(&place).unwrap().mode = 0;
    });

    let destination = format!("{TREES}/inaccessible");
    let failure = r
        .run(Commands::New(NewOptions { path: at(&destination), ..plain("inaccessible") }))
        .unwrap_err()
        .message();

    for part in [
        "UNIQUE_PRIMARY_HOOK_FAILURE",
        "inspecting destination ownership",
        "Permission denied",
        "cleanup failed",
        destination.as_str(),
        "branch inaccessible retained",
    ] {
        assert!(failure.contains(part), "{part}: {failure}");
    }
    assert!(r.present(&format!("{destination}/.git")));
    assert!(r.keeps_its_index());
}
