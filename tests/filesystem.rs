use aoc2022::filesystem::{parse_cmds, ElfFs, FsCmd, LsCmdOutput};

const SESSION: &str = "$ cd /
$ ls
dir a
14848514 b.txt
8504156 c.dat
dir d
$ cd a
$ ls
dir e
29116 f
2557 g
62596 h.lst
$ cd e
$ ls
584 i
$ cd ..
$ cd ..
$ cd d
$ ls
4060174 j
8033020 d.log
5626152 d.ext
7214296 k";

fn session_fs() -> ElfFs {
    let lines: Vec<String> = SESSION.lines().map(|l| l.to_string()).collect();
    let cmds = parse_cmds(&lines).unwrap();
    assert_eq!(cmds.len(), 10);
    let mut fs = ElfFs::empty();
    for c in cmds.iter() {
        ElfFs::fold_cmd(&mut fs, c);
    }
    fs
}

fn size_of(sizes: &[(Vec<String>, usize)], dir: &[&str]) -> usize {
    sizes
        .iter()
        .find(|(d, _)| d.iter().map(|s| s.as_str()).collect::<Vec<&str>>() == dir)
        .map(|(_, s)| *s)
        .unwrap()
}

#[test]
fn directory_sizes_of_the_session() {
    let fs = session_fs();
    assert_eq!(fs.file_sizes.len(), 10);
    let sizes = fs.dir_sizes();
    assert_eq!(sizes.len(), 4);
    assert_eq!(size_of(&sizes, &["/"]), 48381165);
    assert_eq!(size_of(&sizes, &["/", "a"]), 94853);
    assert_eq!(size_of(&sizes, &["/", "a", "e"]), 584);
    assert_eq!(size_of(&sizes, &["/", "d"]), 24933642);
    let small: usize = sizes.iter().map(|(_, s)| *s).filter(|&s| s <= 100000).sum();
    assert_eq!(small, 95437);
}

#[test]
fn commands_read() {
    let lines: Vec<String> = ["$ cd /", "$ cd ..", "$ cd x", "$ ls", "dir y", "12 z"].iter().map(|l| l.to_string()).collect();
    let cmds = parse_cmds(&lines).unwrap();
    assert!(matches!(cmds[0], FsCmd::CdRoot));
    assert!(matches!(cmds[1], FsCmd::CdParent));
    assert!(matches!(&cmds[2], FsCmd::Cd(p) if p == "x"));
    match &cmds[3] {
        FsCmd::Ls(outs) => {
            assert!(matches!(&outs[0], LsCmdOutput::DirOutput(n) if n == "y"));
            assert!(matches!(&outs[1], LsCmdOutput::FileOutput(n, 12) if n == "z"));
        }
        _ => panic!("expected ls"),
    }
    let bad: Vec<String> = ["$ ls", "nonsense here"].iter().map(|l| l.to_string()).collect();
    assert!(parse_cmds(&bad).is_err());
    let stray: Vec<String> = ["12 z"].iter().map(|l| l.to_string()).collect();
    assert!(parse_cmds(&stray).is_err());
}

#[test]
fn moving_about() {
    let mut fs = ElfFs::empty();
    fs.cd("a".to_string());
    fs.cd("b".to_string());
    fs.cd_parent();
    assert_eq!(fs.cwd, vec!["/".to_string(), "a".to_string()]);
    fs.populate_files(&vec![LsCmdOutput::FileOutput("f".to_string(), 5), LsCmdOutput::DirOutput("c".to_string())]);
    fs.populate_files(&vec![LsCmdOutput::FileOutput("f".to_string(), 7)]);
    assert_eq!(fs.file_sizes.len(), 1);
    assert_eq!(fs.file_sizes[0].1, 7);
    fs.cd_root();
    assert_eq!(fs.cwd, vec!["/".to_string()]);
}

#[test]
fn directory_choices() {
    let fs = session_fs();
    let sizes = fs.dir_sizes();
    assert_eq!(aoc2022::filesystem::total_at_most(&sizes, 100000), 95437);
    let root = aoc2022::filesystem::size_of_dir(&sizes, &vec!["/".to_string()]).unwrap();
    assert_eq!(root, 48381165);
    let needed = aoc2022::filesystem::space_to_free(root);
    assert_eq!(needed, 8381165);
    assert_eq!(aoc2022::filesystem::smallest_at_least(&sizes, needed), Some(24933642));
    assert_eq!(aoc2022::filesystem::smallest_at_least(&sizes, 50_000_000), None);
    assert_eq!(aoc2022::filesystem::size_of_dir(&sizes, &vec!["x".to_string()]), None);
}
