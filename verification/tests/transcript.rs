//! Rebuilding a directory tree from a shell transcript.

use bestfirst::day_07::{find_possible_directories, sum_small_dirs, Directory};

const TRANSCRIPT: &str = "$ cd /
$ ls
dir a
14848514 b.txt
8504156 c.dat
dir d
$ cd a
$ ls
dir e
29116 f
2557 g
62596 h.lst
$ cd e
$ ls
584 i
$ cd ..
$ cd ..
$ cd d
$ ls
4060174 j
8033020 d.log
5626152 d.ext
7214296 k";

fn build_tree() -> Directory {
    let lines: Vec<Vec<u8>> = TRANSCRIPT.lines().map(|l| l.as_bytes().to_vec()).collect();
    let mut root = Directory {
        name: b"/".to_vec(),
        children: Vec::new(),
    };
    let mut pos = 0usize;
    bestfirst::day_07::process_commands(&lines, &mut pos, &mut root);
    root
}

#[test]
fn transcript_sizes() {
    let root = build_tree();
    assert_eq!(root.size(), 48381165);
    assert_eq!(sum_small_dirs(&root), 95437);
}

#[test]
fn transcript_deletion_candidates() {
    let root = build_tree();
    let unused = 70000000 - root.size();
    let target = 30000000 - unused;
    let mut possibilities = Vec::new();
    find_possible_directories(&root, target, &mut possibilities);
    possibilities.sort();
    assert_eq!(possibilities[0], 24933642);
}
