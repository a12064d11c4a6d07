use dupfind::collect::collect_candidates;
use dupfind::errors::ErrorKind;
use dupfind::file_data::FileData;
use dupfind::file_data::FileKind;
use dupfind::group::Group;
use dupfind::grouping::get_groups;

fn file_with(path: &str, bytes: &[u8]) -> FileData {
    FileData::new(path.to_string(), bytes.len() as u64, FileKind::File).with_content(bytes.to_vec())
}

fn group_paths(g: &Group) -> Vec<String> {
    g.paths.iter().map(|f| f.path.clone()).collect()
}

fn sorted_paths(g: &Group) -> Vec<String> {
    let mut p = group_paths(g);
    p.sort();
    p
}

#[test]
fn two_identical_files_one_group() {
    let files = vec![
        file_with("a.txt", b"hi"),
        file_with("b.txt", b"hi"),
        file_with("c.txt", b"bye"),
    ];
    let (groups, errors) = get_groups(files);
    assert!(errors.is_empty());
    assert_eq!(groups.len(), 1);
    assert_eq!(groups[0].count, 2);
    assert_eq!(sorted_paths(&groups[0]), vec!["a.txt", "b.txt"]);
    for g in groups.iter() {
        for m in g.paths.iter() {
            assert_ne!(m.path, "c.txt");
        }
    }
}

#[test]
fn empty_files_grouped_together() {
    let files = vec![file_with("one", b""), file_with("two", b"")];
    let (groups, errors) = get_groups(files);
    assert!(errors.is_empty());
    assert_eq!(groups.len(), 1);
    assert_eq!(groups[0].count, 2);
    assert_eq!(sorted_paths(&groups[0]), vec!["one", "two"]);
}

#[test]
fn no_group_below_two_members() {
    let files = vec![
        file_with("a", b"1"),
        file_with("b", b"22"),
        file_with("c", b"333"),
    ];
    let (groups, errors) = get_groups(files);
    assert!(groups.is_empty());
    assert!(errors.is_empty());
    let files = vec![
        file_with("a", b"x"),
        file_with("b", b"x"),
        file_with("c", b"zz"),
    ];
    let (groups, _) = get_groups(files);
    for g in groups.iter() {
        assert!(g.count >= 2);
        assert!(g.paths.len() >= 2);
    }
}

#[test]
fn unreadable_file_skipped_with_error_recorded() {
    // "locked" has the same size as its readable siblings but no content
    // could be read for it; the siblings still group, the failure is kept.
    let files = vec![
        file_with("x.txt", b"aa"),
        FileData::new("locked".to_string(), 2, FileKind::File),
        file_with("z.txt", b"aa"),
    ];
    let (groups, errors) = get_groups(files);
    assert_eq!(groups.len(), 1);
    assert_eq!(groups[0].count, 2);
    assert_eq!(sorted_paths(&groups[0]), vec!["x.txt", "z.txt"]);
    assert_eq!(errors.len(), 1);
    assert_eq!(errors[0].kind, ErrorKind::IoReadError);
    assert_eq!(errors[0].path, "locked");
}

#[test]
fn symlink_never_joins_a_group() {
    // A symlink pointing at a duplicate target is classified as a link and
    // dropped before grouping ever sees it.
    let entries = vec![
        file_with("orig", b"data"),
        file_with("copy", b"data"),
        FileData::new("ln".to_string(), 4, FileKind::Link).with_content(b"data".to_vec()),
    ];
    let candidates = collect_candidates(entries);
    assert_eq!(candidates.len(), 2);
    let (groups, errors) = get_groups(candidates);
    assert!(errors.is_empty());
    assert_eq!(groups.len(), 1);
    assert_eq!(groups[0].count, 2);
    assert_eq!(sorted_paths(&groups[0]), vec!["copy", "orig"]);
}

#[test]
fn members_sorted_by_path_length() {
    let files = vec![
        file_with("a_very_long_name", b"dup"),
        file_with("mid_name", b"dup"),
        file_with("s", b"dup"),
    ];
    let (groups, _) = get_groups(files);
    assert_eq!(groups.len(), 1);
    assert_eq!(
        group_paths(&groups[0]),
        vec!["s", "mid_name", "a_very_long_name"]
    );
}

#[test]
fn groups_sorted_by_count_then_longest_path() {
    // One group of three and one of two: the pair comes first.
    let files = vec![
        file_with("t1", b"abc"),
        file_with("t2", b"abc"),
        file_with("t3", b"abc"),
        file_with("p1", b"zz"),
        file_with("p2", b"zz"),
    ];
    let (groups, _) = get_groups(files);
    assert_eq!(groups.len(), 2);
    assert_eq!(groups[0].count, 2);
    assert_eq!(groups[1].count, 3);
    assert_eq!(sorted_paths(&groups[0]), vec!["p1", "p2"]);
    assert_eq!(sorted_paths(&groups[1]), vec!["t1", "t2", "t3"]);
}

#[test]
fn tied_counts_ordered_by_longest_member() {
    // Two pairs: the one whose longest path is shorter comes first.
    let files = vec![
        file_with("long_pair_member_1", b"aa"),
        file_with("lp2", b"aa"),
        file_with("sp1", b"bb"),
        file_with("sp2", b"bb"),
    ];
    let (groups, _) = get_groups(files);
    assert_eq!(groups.len(), 2);
    assert_eq!(groups[0].count, 2);
    assert_eq!(groups[1].count, 2);
    assert_eq!(sorted_paths(&groups[0]), vec!["sp1", "sp2"]);
    assert_eq!(sorted_paths(&groups[1]), vec!["long_pair_member_1", "lp2"]);
}

#[test]
fn grouping_ignores_input_order() {
    let forward = vec![
        file_with("a1", b"one"),
        file_with("a2", b"one"),
        file_with("b1", b"second"),
        file_with("b2", b"second"),
        file_with("b3", b"second"),
        file_with("solo", b"alone"),
    ];
    let mut shuffled = forward.clone();
    shuffled.reverse();
    shuffled.swap(1, 3);
    let (g1, e1) = get_groups(forward);
    let (g2, e2) = get_groups(shuffled);
    assert!(e1.is_empty());
    assert!(e2.is_empty());
    let mut sets1: Vec<Vec<String>> = g1.iter().map(sorted_paths).collect();
    let mut sets2: Vec<Vec<String>> = g2.iter().map(sorted_paths).collect();
    sets1.sort();
    sets2.sort();
    assert_eq!(sets1, sets2);
}

#[test]
fn each_duplicate_in_exactly_one_group() {
    let files = vec![
        file_with("a1", b"one"),
        file_with("a2", b"one"),
        file_with("b1", b"two"),
        file_with("b2", b"two"),
        file_with("b3", b"two"),
        file_with("solo", b"zzz"),
    ];
    let (groups, _) = get_groups(files);
    let mut seen: Vec<String> = Vec::new();
    for g in groups.iter() {
        for m in g.paths.iter() {
            assert!(!seen.contains(&m.path));
            seen.push(m.path.clone());
        }
    }
    seen.sort();
    assert_eq!(seen, vec!["a1", "a2", "b1", "b2", "b3"]);
}

#[test]
fn empty_input_gives_nothing() {
    let (groups, errors) = get_groups(Vec::new());
    assert!(groups.is_empty());
    assert!(errors.is_empty());
}

#[test]
fn group_new_and_default() {
    let g = Group::new(2, vec![file_with("a", b"x"), file_with("b", b"x")]);
    assert_eq!(g.count, 2);
    assert_eq!(g.paths.len(), 2);
    let d = Group::default();
    assert_eq!(d.count, 1);
    assert!(d.paths.is_empty());
}
