use git_projects::repo::{DirEntry, RepoScan, Step};

/// A directory tree held in memory: the directories and the plain files
/// under the root, by relative path.
struct Tree {
    dirs: Vec<String>,
    files: Vec<String>,
}

impl Tree {
    fn new() -> Tree {
        Tree { dirs: Vec::new(), files: Vec::new() }
    }

    fn add_dir(&mut self, rel: &str) {
        let mut path = String::new();
        for part in rel.split('/') {
            if !path.is_empty() {
                path.push('/');
            }
            path.push_str(part);
            if !self.dirs.contains(&path) {
                self.dirs.push(path.clone());
            }
        }
    }

    fn add_file(&mut self, rel: &str) {
        if let Some((parent, _)) = rel.rsplit_once('/') {
            self.add_dir(parent);
        }
        self.files.push(rel.to_string());
    }

    fn parent_of(path: &str) -> &str {
        path.rsplit_once('/').map(|(p, _)| p).unwrap_or("")
    }

    fn name_of(path: &str) -> &str {
        path.rsplit_once('/').map(|(_, n)| n).unwrap_or(path)
    }

    fn join(dir: &str, name: &str) -> String {
        if dir.is_empty() {
            name.to_string()
        } else {
            format!("{}/{}", dir, name)
        }
    }

    fn has_path(&self, path: &str) -> bool {
        self.dirs.iter().any(|d| d == path) || self.files.iter().any(|f| f == path)
    }

    /// Walks the tree from the root as the program walks the disk, and
    /// returns what the scan found.
    fn scan(&self) -> Vec<String> {
        let mut scan = RepoScan::new();
        self.visit_dir(&mut scan, "", 0, ".tmpRoot");
        scan.finish()
    }

    fn visit_dir(&self, scan: &mut RepoScan, path: &str, depth: usize, root_name: &str) {
        let name = if depth == 0 { root_name } else { Tree::name_of(path) };
        let entry = DirEntry {
            depth,
            is_dir: true,
            name: Some(name.to_string()),
            has_git: self.has_path(&Tree::join(path, ".git")),
            relative: Some(path.to_string()),
        };
        if scan.visit(&entry) == Step::SkipDir {
            return;
        }
        for d in &self.dirs {
            if depth + 1 == d.split('/').count() && Tree::parent_of(d) == path {
                self.visit_dir(scan, d, depth + 1, root_name);
            }
        }
        for f in &self.files {
            if Tree::parent_of(f) == path && f.split('/').count() == depth + 1 {
                let entry = DirEntry {
                    depth: depth + 1,
                    is_dir: false,
                    name: Some(Tree::name_of(f).to_string()),
                    has_git: false,
                    relative: Some(f.clone()),
                };
                assert_eq!(scan.visit(&entry), Step::Continue);
            }
        }
    }
}

fn repo_dir(tree: &mut Tree, rel: &str) {
    tree.add_dir(&format!("{}/.git", rel));
}

fn worktree(tree: &mut Tree, rel: &str) {
    tree.add_dir(rel);
    tree.add_file(&format!("{}/.git", rel));
}

#[test]
fn finds_repos_by_relative_path() {
    let mut tree = Tree::new();
    repo_dir(&mut tree, "github.com/td72/git-projects");
    repo_dir(&mut tree, "github.com/myorg/thing");

    assert_eq!(
        tree.scan(),
        vec!["github.com/myorg/thing", "github.com/td72/git-projects",]
    );
}

#[test]
fn finds_worktrees_where_dot_git_is_a_file() {
    let mut tree = Tree::new();
    worktree(&mut tree, "github.com/td72/wt");

    assert_eq!(tree.scan(), vec!["github.com/td72/wt"]);
}

#[test]
fn does_not_descend_into_a_repo() {
    let mut tree = Tree::new();
    repo_dir(&mut tree, "outer");
    repo_dir(&mut tree, "outer/vendor/inner");

    assert_eq!(tree.scan(), vec!["outer"]);
}

#[test]
fn skips_hidden_directories() {
    let mut tree = Tree::new();
    repo_dir(&mut tree, ".cache/hidden-repo");
    repo_dir(&mut tree, "visible");

    assert_eq!(tree.scan(), vec!["visible"]);
}

#[test]
fn ignores_plain_directories() {
    let mut tree = Tree::new();
    tree.add_dir("not-a-repo/nested");

    assert!(tree.scan().is_empty());
}

#[test]
fn missing_root_yields_nothing() {
    // A missing root gives the walk no entry at all.
    let scan = RepoScan::new();
    assert!(scan.finish().is_empty());
}

#[test]
fn root_that_is_a_repository_is_not_listed() {
    let mut scan = RepoScan::new();
    let root = DirEntry {
        depth: 0,
        is_dir: true,
        name: Some(".hidden-root".to_string()),
        has_git: true,
        relative: Some(String::new()),
    };
    assert_eq!(scan.visit(&root), Step::SkipDir);
    assert!(scan.finish().is_empty());
}

#[test]
fn found_repositories_come_out_sorted() {
    let mut scan = RepoScan::new();
    for rel in ["b", "a/z", "B", "é", "a"] {
        let entry = DirEntry {
            depth: 1,
            is_dir: true,
            name: Some(rel.to_string()),
            has_git: true,
            relative: Some(rel.to_string()),
        };
        assert_eq!(scan.visit(&entry), Step::SkipDir);
    }
    assert_eq!(scan.finish(), vec!["B", "a", "a/z", "b", "é"]);
}
