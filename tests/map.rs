use spell::map::LcsMap;
use spell::object::LcsObject;
use spell::LcsSeq;

fn var_log_messages_lines() -> [&'static str; 6] {
    [
        "Jan 22 04:11:04 combo syslogd 1.4.1: restart.\n",
        "Jan 22 04:11:04 combo logrotate: ALERT exited abnormally with [1]\n",
        "Jan 22 04:16:40 combo su(pam_unix)[21719]: session opened for user news by (uid=0)\n",
        "Jan 22 04:16:41 combo su(pam_unix)[21719]: session closed for user news\n",
        "Jan 22 05:23:19 combo sshd(pam_unix)[24892]: check pass; user unknown\n",
        "Jan 22 05:23:19 combo sshd(pam_unix)[24892]: authentication failure; logname= uid=0 euid=0 tty=NODEVssh ruser= rhost=server3.sugolan.hu\n",
    ]
}

fn expected_text_after_each_line() -> [&'static str; 6] {
    [
        "\t1 Objects in the LCSMap\n\n\
         \tObject 0:\n\t\tJan 22 04:11:04 combo syslogd 1.4.1: restart.\n\t\t{0}\n\
         \n\t1 total entries found, 1 expected.",
        "\t2 Objects in the LCSMap\n\n\
         \tObject 0:\n\t\tJan 22 04:11:04 combo syslogd 1.4.1: restart.\n\t\t{0}\n\
         \tObject 1:\n\t\tJan 22 04:11:04 combo logrotate: ALERT exited abnormally with [1]\n\t\t{1}\n\
         \n\t2 total entries found, 2 expected.",
        "\t3 Objects in the LCSMap\n\n\
         \tObject 0:\n\t\tJan 22 04:11:04 combo syslogd 1.4.1: restart.\n\t\t{0}\n\
         \tObject 1:\n\t\tJan 22 04:11:04 combo logrotate: ALERT exited abnormally with [1]\n\t\t{1}\n\
         \tObject 2:\n\t\tJan 22 04:16:40 combo su(pam_unix)[21719]: session opened for user news by (uid=0)\n\t\t{2}\n\
         \n\t3 total entries found, 3 expected.",
        "\t3 Objects in the LCSMap\n\n\
         \tObject 0:\n\t\tJan 22 04:11:04 combo syslogd 1.4.1: restart.\n\t\t{0}\n\
         \tObject 1:\n\t\tJan 22 04:11:04 combo logrotate: ALERT exited abnormally with [1]\n\t\t{1}\n\
         \tObject 2:\n\t\tJan 22 * combo su(pam_unix)[21719]: session * for user news\n\t\t{2, 3}\n\
         \n\t4 total entries found, 4 expected.",
        "\t3 Objects in the LCSMap\n\n\
         \tObject 0:\n\t\tJan 22 04:11:04 combo syslogd 1.4.1: restart.\n\t\t{0}\n\
         \tObject 1:\n\t\tJan 22 04:11:04 combo logrotate: ALERT exited abnormally with [1]\n\t\t{1}\n\
         \tObject 2:\n\t\tJan 22 * combo * user *\n\t\t{2, 3, 4}\n\
         \n\t5 total entries found, 5 expected.",
        "\t4 Objects in the LCSMap\n\n\
         \tObject 0:\n\t\tJan 22 04:11:04 combo syslogd 1.4.1: restart.\n\t\t{0}\n\
         \tObject 1:\n\t\tJan 22 04:11:04 combo logrotate: ALERT exited abnormally with [1]\n\t\t{1}\n\
         \tObject 2:\n\t\tJan 22 * combo * user *\n\t\t{2, 3, 4}\n\
         \tObject 3:\n\t\tJan 22 05:23:19 combo sshd(pam_unix)[24892]: authentication failure; logname= uid=0 euid=0 tty=NODEVssh ruser= rhost=server3.sugolan.hu\n\t\t{5}\n\
         \n\t6 total entries found, 6 expected.",
    ]
}

fn object(tokens: &[&str], lines_ids: Vec<usize>) -> LcsObject {
    LcsObject {
        tokens: tokens.iter().map(|s| s.to_string()).collect(),
        lines_ids,
    }
}

fn owned(tokens: &[&str]) -> LcsSeq {
    tokens.iter().map(|s| s.to_string()).collect()
}

fn first_template() -> LcsObject {
    object(
        &["Jan", "22", "04:11:04", "combo", "syslogd", "1.4.1:", "restart."],
        vec![0],
    )
}

fn second_template() -> LcsObject {
    object(
        &[
            "Jan",
            "22",
            "04:11:04",
            "combo",
            "logrotate:",
            "ALERT",
            "exited",
            "abnormally",
            "with",
            "[1]",
        ],
        vec![1],
    )
}

#[test]
fn compare_java() {
    let inputs = var_log_messages_lines();
    let expected = expected_text_after_each_line();

    let mut map = LcsMap::new();

    map.insert(inputs[0]);
    let to_check = map.to_string();
    assert_eq!(to_check, expected[0]);

    map.insert(inputs[1]);
    let to_check = map.to_string();
    assert_eq!(to_check, expected[1]);

    map.insert(inputs[2]);
    let to_check = map.to_string();
    assert_eq!(to_check, expected[2]);

    map.insert(inputs[3]);
    let to_check = map.to_string();
    assert_eq!(to_check, expected[3]);

    map.insert(inputs[4]);
    let to_check = map.to_string();
    assert_eq!(to_check, expected[4]);

    map.insert(inputs[5]);
    let to_check = map.to_string();
    assert_eq!(to_check, expected[5]);
}

#[test]
fn parse_log() {
    let inputs = var_log_messages_lines();

    let mut map = LcsMap::new();
    let expected = LcsMap {
        seq: Vec::new(),
        line_id: 0,
        delimiters: vec![' '],
    };
    assert_eq!(map, expected);

    map.insert(inputs[0]);
    let expected = LcsMap {
        seq: vec![first_template()],
        line_id: 1,
        delimiters: vec![' '],
    };
    assert_eq!(map, expected);

    map.insert(inputs[1]);
    let expected = LcsMap {
        seq: vec![first_template(), second_template()],
        line_id: 2,
        delimiters: vec![' '],
    };
    assert_eq!(map, expected);

    map.insert(inputs[2]);
    let expected = LcsMap {
        seq: vec![
            first_template(),
            second_template(),
            object(
                &[
                    "Jan",
                    "22",
                    "04:16:40",
                    "combo",
                    "su(pam_unix)[21719]:",
                    "session",
                    "opened",
                    "for",
                    "user",
                    "news",
                    "by",
                    "(uid=0)",
                ],
                vec![2],
            ),
        ],
        line_id: 3,
        delimiters: vec![' '],
    };
    assert_eq!(map, expected);

    map.insert(inputs[3]);
    let expected = LcsMap {
        seq: vec![
            first_template(),
            second_template(),
            object(
                &[
                    "Jan",
                    "22",
                    "*",
                    "combo",
                    "su(pam_unix)[21719]:",
                    "session",
                    "*",
                    "for",
                    "user",
                    "news",
                ],
                vec![2, 3],
            ),
        ],
        line_id: 4,
        delimiters: vec![' '],
    };
    assert_eq!(map, expected);

    map.insert(inputs[4]);
    let expected = LcsMap {
        seq: vec![
            first_template(),
            second_template(),
            object(
                &["Jan", "22", "*", "combo", "*", "user", "*"],
                vec![2, 3, 4],
            ),
        ],
        line_id: 5,
        delimiters: vec![' '],
    };
    assert_eq!(map, expected);

    map.insert(inputs[5]);
    let expected = LcsMap {
        seq: vec![
            first_template(),
            second_template(),
            object(
                &["Jan", "22", "*", "combo", "*", "user", "*"],
                vec![2, 3, 4],
            ),
            object(
                &[
                    "Jan",
                    "22",
                    "05:23:19",
                    "combo",
                    "sshd(pam_unix)[24892]:",
                    "authentication",
                    "failure;",
                    "logname=",
                    "uid=0",
                    "euid=0",
                    "tty=NODEVssh",
                    "ruser=",
                    "rhost=server3.sugolan.hu",
                ],
                vec![5],
            ),
        ],
        line_id: 6,
        delimiters: vec![' '],
    };
    assert_eq!(map, expected);
}

#[test]
fn parse_log_with_delimiters() {
    let inputs = var_log_messages_lines();

    let mut map = LcsMap::with_delimiters(vec![' ', ':']);
    let expected = LcsMap {
        seq: Vec::new(),
        line_id: 0,
        delimiters: vec![' ', ':'],
    };
    assert_eq!(map, expected);

    map.insert(inputs[0]);
    let expected = LcsMap {
        seq: vec![object(
            &["Jan", "22", "04", "11", "04", "combo", "syslogd", "1.4.1", "restart."],
            vec![0],
        )],
        line_id: 1,
        delimiters: vec![' ', ':'],
    };
    assert_eq!(map, expected);
}

#[test]
fn single_line_founds_one_template() {
    let mut map = LcsMap::with_delimiters(vec![' ']);
    map.insert("Jan 22 04:11:04 combo syslogd 1.4.1: restart.");
    assert_eq!(map.seq, vec![first_template()]);
    assert_eq!(map.line_id, 1);
}

#[test]
fn two_session_lines_merge() {
    let mut map = LcsMap::new();
    map.insert(
        "Jan 22 04:16:40 combo su(pam_unix)[21719]: session opened for user news by (uid=0)",
    );
    map.insert("Jan 22 04:16:41 combo su(pam_unix)[21719]: session closed for user news");
    assert_eq!(
        map.seq,
        vec![object(
            &[
                "Jan",
                "22",
                "*",
                "combo",
                "su(pam_unix)[21719]:",
                "session",
                "*",
                "for",
                "user",
                "news",
            ],
            vec![0, 1],
        )]
    );
}

#[test]
fn progressive_generalisation_and_a_new_template() {
    let inputs = var_log_messages_lines();
    let mut map = LcsMap::new();
    for line in inputs.iter() {
        map.insert(line);
    }
    assert_eq!(map.seq.len(), 4);
    assert_eq!(
        map.seq[2],
        object(&["Jan", "22", "*", "combo", "*", "user", "*"], vec![2, 3, 4])
    );
    assert_eq!(map.seq[3].lines_ids, vec![5]);
    assert_eq!(map.seq[3].length(), 13);
}

#[test]
fn empty_lines_found_empty_templates() {
    let mut map = LcsMap::new();
    map.insert("");
    assert_eq!(map.seq, vec![object(&[], vec![0])]);
    // A line with no tokens scores zero against every template, and a score
    // must exceed zero to match: each empty line founds a template.
    map.insert("   ");
    assert_eq!(map.seq, vec![object(&[], vec![0]), object(&[], vec![1])]);
    assert_eq!(map.get_match(&Vec::new()), None);
}

#[test]
fn rebuilding_gives_the_same_text() {
    let inputs = var_log_messages_lines();
    let mut first = LcsMap::with_delimiters(vec![' ', ',']);
    let mut second = LcsMap::with_delimiters(vec![' ', ',']);
    for line in inputs.iter() {
        first.insert(line);
    }
    for line in inputs.iter() {
        second.insert(line);
    }
    assert_eq!(first.to_string(), second.to_string());
    assert_eq!(first, second);
}

#[test]
fn absorbed_lines_add_up_to_issued_identifiers() {
    let inputs = var_log_messages_lines();
    let mut map = LcsMap::new();
    for round in 0..5 {
        for line in inputs.iter() {
            map.insert(line);
        }
        let total: usize = map.seq.iter().map(|o| o.count()).sum();
        assert_eq!(total, map.line_id);
        assert_eq!(map.line_id, 6 * (round + 1));
    }
    let mut all: Vec<usize> = map.seq.iter().flat_map(|o| o.lines_ids.clone()).collect();
    all.sort();
    assert_eq!(all, (0..30).collect::<Vec<usize>>());
}

#[test]
fn templates_never_hold_adjacent_wildcards() {
    let lines = [
        "a b c d e f",
        "a x y d e f",
        "q a b z d f",
        "a r s t u f",
        "a b c d e f g h",
        "z z a z z f",
    ];
    let mut map = LcsMap::new();
    for line in lines.iter() {
        map.insert(line);
        for obj in map.seq.iter() {
            for pair in obj.tokens.windows(2) {
                assert!(!(pair[0] == "*" && pair[1] == "*"));
            }
        }
    }
}

#[test]
fn templates_and_their_lines_only_grow() {
    let inputs = var_log_messages_lines();
    let mut map = LcsMap::new();
    let mut before: Vec<Vec<usize>> = Vec::new();
    for line in inputs.iter() {
        map.insert(line);
        assert!(map.seq.len() >= before.len());
        for (i, ids) in before.iter().enumerate() {
            assert!(map.seq[i].lines_ids.starts_with(ids));
        }
        before = map.seq.iter().map(|o| o.lines_ids.clone()).collect();
    }
}

#[test]
fn ties_go_to_the_earliest_template() {
    let mut map = LcsMap::new();
    map.insert("a b");
    map.insert("c d e f g h");
    assert_eq!(map.seq.len(), 2);
    // Both templates score two against this line; the first one wins.
    map.insert("a b c d");
    assert_eq!(map.seq.len(), 2);
    assert_eq!(map.seq[0], object(&["a", "b"], vec![0, 2]));
    assert_eq!(map.seq[1].lines_ids, vec![1]);
}

#[test]
fn templates_outside_the_size_window_are_not_compared() {
    let mut map = LcsMap::new();
    map.insert("a b c d e f g h i j");
    let line = owned(&["a", "b", "c", "d"]);
    assert_eq!(map.best_match_index(&line), None);
    map.insert("a b c d");
    assert_eq!(map.seq.len(), 2);
}

#[test]
fn a_match_needs_half_the_tokens() {
    let mut map = LcsMap::new();
    map.insert("a b c d");
    assert_eq!(map.best_match_index(&owned(&["a", "x", "y", "z"])), None);
    assert_eq!(map.best_match_index(&owned(&["a", "b", "y", "z"])), Some(0));
}

#[test]
fn get_match_finds_without_changing() {
    let inputs = var_log_messages_lines();
    let mut map = LcsMap::new();
    for line in inputs.iter() {
        map.insert(line);
    }
    let tokens = owned(&[
        "Jan", "22", "06:00:00", "combo", "cron[1]:", "user", "root", "logged",
    ]);
    let found = map.get_match(&tokens).unwrap();
    assert_eq!(found.lines_ids, vec![2, 3, 4]);
    assert_eq!(map.line_id, 6);
    assert_eq!(map.get_match(&owned(&["nothing", "alike"])), None);
}

#[test]
fn get_match_mut_changes_the_match_in_place() {
    let mut map = LcsMap::new();
    map.insert("a b c");
    map.insert("x y z w v u");
    let tokens = owned(&["a", "q", "c"]);
    match map.get_match_mut(&tokens) {
        Some(obj) => obj.insert(tokens.clone(), 2),
        None => panic!("no match"),
    }
    assert_eq!(map.seq[0], object(&["a", "*", "c"], vec![0, 2]));
    assert_eq!(map.seq[1].lines_ids, vec![1]);
    assert!(map.get_match_mut(&owned(&["k"])).is_none());
}

#[test]
fn text_of_many_lines_uses_decimal_numbers() {
    let mut map = LcsMap::new();
    for _ in 0..12 {
        map.insert("same line");
    }
    assert_eq!(
        map.to_string(),
        "\t1 Objects in the LCSMap\n\n\tObject 0:\n\t\tsame line\n\t\t{0, 1, 2, 3, 4, 5, 6, 7, 8, 9, 10, 11}\n\n\t12 total entries found, 12 expected."
    );
}

#[test]
fn empty_store_text() {
    let map = LcsMap::default();
    assert!(map.delimiters.is_empty());
    assert_eq!(
        map.to_string(),
        "\t0 Objects in the LCSMap\n\n\n\t0 total entries found, 0 expected."
    );
}

#[test]
fn literal_star_tokens_found_a_template_as_they_are() {
    let mut map = LcsMap::new();
    map.insert("* *");
    assert_eq!(map.seq, vec![object(&["*", "*"], vec![0])]);
}
