use idirfein_server::order::sort;
use idirfein_server::path::{is_same_path, join_path, path_comes_before, strip_base};
use idirfein_server::text::{contains_text, list_contains};
use std::path::{Path, PathBuf};

const SAMPLES: [&str; 33] = [
    "", ".", "..", "/", "//", "/.", "./", "./.", "a", "./a", "a/", "a/.", "a/./", "a//", "/a",
    "//a", "a/b", "a//b", "a/./b", "./a/b", "a/b/", "a/../b", "../a", "a.b", "a-b", "a/b.c", "ab",
    "A", "é", "a/é", "...", "a/.../b", "./..",
];

#[test]
fn same_paths_are_those_of_the_standard_library() {
    for a in SAMPLES {
        for b in SAMPLES {
            assert_eq!(is_same_path(a, b), Path::new(a) == Path::new(b), "{:?} {:?}", a, b);
        }
    }
}

#[test]
fn paths_are_ordered_as_in_the_standard_library() {
    for a in SAMPLES {
        for b in SAMPLES {
            assert_eq!(path_comes_before(a, b), Path::new(a) < Path::new(b), "{:?} {:?}", a, b);
        }
    }
}

#[test]
fn a_directory_comes_before_its_longer_named_neighbour() {
    assert!(path_comes_before("a/b", "a.b"));
    assert!("a.b" < "a/b");
}

#[test]
fn paths_are_joined_as_in_the_standard_library() {
    for a in SAMPLES {
        for b in SAMPLES {
            let joined: PathBuf = Path::new(a).join(b);
            assert_eq!(Some(join_path(a, b).as_str()), joined.to_str(), "{:?} {:?}", a, b);
        }
    }
}

#[test]
fn absolute_paths_replace_the_base() {
    assert_eq!(join_path("/root", "/etc/passwd"), "/etc/passwd");
}

#[test]
fn paths_are_stripped_as_in_the_standard_library() {
    for path in SAMPLES {
        for base in SAMPLES {
            let expected = Path::new(path).strip_prefix(base).ok().and_then(Path::to_str);
            assert_eq!(strip_base(path, base).as_deref(), expected, "{:?} {:?}", path, base);
            let longer = join_path(base, path);
            let expected = Path::new(&longer).strip_prefix(base).ok().and_then(Path::to_str);
            assert_eq!(strip_base(&longer, base).as_deref(), expected, "{:?} {:?}", longer, base);
        }
    }
}

#[test]
fn joining_undoes_stripping() {
    for path in SAMPLES {
        for base in SAMPLES {
            if let Some(rest) = strip_base(path, base) {
                assert!(is_same_path(&join_path(base, &rest), path), "{:?} {:?}", path, base);
            }
        }
    }
}

#[test]
fn stripping_undoes_joining_of_plain_paths() {
    for base in SAMPLES {
        for path in ["", "a", "a/b", "a/../b", "..", "...", "a/b.c"] {
            assert_eq!(strip_base(&join_path(base, path), base).as_deref(), Some(path));
        }
    }
}

#[test]
fn stripping_what_a_walk_yields() {
    assert_eq!(strip_base("/root/f", "/root/f").as_deref(), Some(""));
    assert_eq!(strip_base("/root/f/x/y.txt", "/root/f").as_deref(), Some("x/y.txt"));
    assert_eq!(strip_base("/root//f/x//y/", "/root/./f/").as_deref(), Some("x//y"));
    assert_eq!(strip_base("/root/fx", "/root/f"), None);
    assert_eq!(strip_base("/other", "/root/f"), None);
}

#[test]
fn joined_paths_start_with_their_base() {
    for base in SAMPLES {
        for path in SAMPLES {
            if !path.starts_with('/') {
                assert!(Path::new(&join_path(base, path)).starts_with(base), "{:?} {:?}", base, path);
            }
        }
    }
}

#[test]
fn texts_are_found_as_in_the_standard_library() {
    for text in SAMPLES {
        for part in SAMPLES {
            assert_eq!(contains_text(text, part), text.contains(part), "{:?} {:?}", text, part);
        }
    }
    assert!(contains_text("/home/me/.git/config", ".git"));
    assert!(!contains_text("/home/me/git/config", ".git"));
}

#[test]
fn strings_are_sorted_as_in_the_standard_library() {
    let mut expected: Vec<String> = Vec::new();
    for round in 0..40usize {
        for (i, sample) in SAMPLES.iter().enumerate() {
            if (i * 7 + round) % 3 != 0 {
                expected.push(format!("{}{}", sample, (i * 31 + round * 17) % 23));
            }
        }
    }
    let sorted = sort(expected.clone());
    expected.sort_unstable();
    assert_eq!(sorted, expected);
    assert_eq!(sort(Vec::<String>::new()), Vec::<String>::new());
}

#[test]
fn lists_know_what_they_hold() {
    let list = vec!["one".to_string(), "two".to_string()];
    assert!(list_contains(&list, &"two".to_string()));
    assert!(!list_contains(&list, &"three".to_string()));
}

#[test]
fn stripping_keeps_different_paths_different() {
    for base in SAMPLES {
        for a in SAMPLES {
            for b in SAMPLES {
                if let (Some(x), Some(y)) = (strip_base(a, base), strip_base(b, base)) {
                    assert!(!is_same_path(&x, &y) || is_same_path(a, b), "{:?} {:?}", a, b);
                }
            }
        }
    }
}

#[test]
fn a_path_can_step_out_of_its_base() {
    assert_eq!(join_path("/root/f", "../g"), "/root/f/../g");
    assert_eq!(strip_base("/root/f/../g", "/root/f").as_deref(), Some("../g"));
}
