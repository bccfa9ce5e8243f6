use permutate::pattern::{Fragment, Pattern, Switch};
use permutate::tokens::ParseError;

fn all(mut p: Pattern) -> Vec<String> {
    let mut v = Vec::new();
    while let Some(s) = p.next_owned() {
        v.push(s);
    }
    v
}

#[test]
fn pattern_simple() {
    let p = Pattern::from_str("abc").unwrap();
    let p2 = Pattern::from(vec![Fragment::Chunk(String::from("abc"))]);
    assert_eq!(p, p2);
    assert_eq!(p.count(), all(p).len());
    assert_eq!(all(p2), vec![String::from("abc"),]);
}

#[test]
fn pattern_empty() {
    let p = Pattern::from_str("").unwrap();
    let p2 = Pattern::from(vec![]);
    assert_eq!(p, p2);
    assert_eq!(p.count(), all(p).len());
    assert_eq!(all(p2), vec![String::new(),]);
}

#[test]
fn pattern_switch() {
    let p = Pattern::from_str("abc{x,y,z}").unwrap();
    let p2 = Pattern::from(vec![
        Fragment::Chunk(String::from("abc")),
        Fragment::Switch(Switch::from(vec![
            vec![Fragment::Chunk(String::from("x"))],
            vec![Fragment::Chunk(String::from("y"))],
            vec![Fragment::Chunk(String::from("z"))],
        ])),
    ]);
    assert_eq!(p, p2);
    assert_eq!(p.count(), all(p).len());
    assert_eq!(
        all(p2),
        vec![
            String::from("abcx"),
            String::from("abcy"),
            String::from("abcz"),
        ]
    );
}

#[test]
fn pattern_nested() {
    let p = Pattern::from_str("abc{x,{y,z}}").unwrap();
    let p2 = Pattern::from(vec![
        Fragment::Chunk(String::from("abc")),
        Fragment::Switch(Switch::from(vec![
            vec![Fragment::Chunk(String::from("x"))],
            vec![Fragment::Switch(Switch::from(vec![
                vec![Fragment::Chunk(String::from("y"))],
                vec![Fragment::Chunk(String::from("z"))],
            ]))],
        ])),
    ]);
    assert_eq!(p, p2);
    assert_eq!(p.count(), all(p).len());
    assert_eq!(
        all(p2),
        vec![
            String::from("abcx"),
            String::from("abcy"),
            String::from("abcz"),
        ]
    );
}

#[test]
fn nested_multiple_times() {
    let p = Pattern::from_str("{{{a,b,c},x},y}").unwrap();
    let p2 = Pattern::from(vec![Fragment::Switch(Switch::from(vec![
        vec![Fragment::Switch(Switch::from(vec![
            vec![Fragment::Switch(Switch::from(vec![
                vec![Fragment::Chunk(String::from("a"))],
                vec![Fragment::Chunk(String::from("b"))],
                vec![Fragment::Chunk(String::from("c"))],
            ]))],
            vec![Fragment::Chunk(String::from("x"))],
        ]))],
        vec![Fragment::Chunk(String::from("y"))],
    ]))]);
    assert_eq!(p, p2);
    assert_eq!(p.count(), all(p).len());
    assert_eq!(
        all(p2),
        vec![
            String::from("a"),
            String::from("b"),
            String::from("c"),
            String::from("x"),
            String::from("y"),
        ]
    );
}

#[test]
fn pattern_prefix_nested() {
    let p = Pattern::from_str("abc{x{y,z}}").unwrap();
    let p2 = Pattern::from(vec![
        Fragment::Chunk(String::from("abc")),
        Fragment::Switch(Switch::from(vec![vec![
            Fragment::Chunk(String::from("x")),
            Fragment::Switch(Switch::from(vec![
                vec![Fragment::Chunk(String::from("y"))],
                vec![Fragment::Chunk(String::from("z"))],
            ])),
        ]])),
    ]);
    assert_eq!(p, p2);
    assert_eq!(p.count(), all(p).len());
    assert_eq!(all(p2), vec![String::from("abcxy"), String::from("abcxz"),]);
}

#[test]
fn prefix_nested_middle() {
    let p = Pattern::from_str("a{b,c{x,y},d}").unwrap();
    let p2 = Pattern::from(vec![
        Fragment::Chunk(String::from("a")),
        Fragment::Switch(Switch::from(vec![
            vec![Fragment::Chunk(String::from("b"))],
            vec![
                Fragment::Chunk(String::from("c")),
                Fragment::Switch(Switch::from(vec![
                    vec![Fragment::Chunk(String::from("x"))],
                    vec![Fragment::Chunk(String::from("y"))],
                ])),
            ],
            vec![Fragment::Chunk(String::from("d"))],
        ])),
    ]);
    assert_eq!(p, p2);
    assert_eq!(p.count(), all(p).len());
    assert_eq!(
        all(p2),
        vec![
            String::from("ab"),
            String::from("acx"),
            String::from("acy"),
            String::from("ad"),
        ]
    );
}

#[test]
fn chained() {
    let p = Pattern::from_str("{x,y,z}{x,y,z}").unwrap();
    let p2 = Pattern::from(vec![
        Fragment::Switch(Switch::from(vec![
            vec![Fragment::Chunk(String::from("x"))],
            vec![Fragment::Chunk(String::from("y"))],
            vec![Fragment::Chunk(String::from("z"))],
        ])),
        Fragment::Switch(Switch::from(vec![
            vec![Fragment::Chunk(String::from("x"))],
            vec![Fragment::Chunk(String::from("y"))],
            vec![Fragment::Chunk(String::from("z"))],
        ])),
    ]);
    assert_eq!(p, p2);
    assert_eq!(p.count(), all(p).len());
    assert_eq!(
        all(p2),
        vec![
            String::from("xx"),
            String::from("yx"),
            String::from("zx"),
            String::from("xy"),
            String::from("yy"),
            String::from("zy"),
            String::from("xz"),
            String::from("yz"),
            String::from("zz"),
        ]
    );
}

#[test]
fn chained_single_items_once() {
    let p = Pattern::from_str("{a}{a}").unwrap();
    let p2 = Pattern::from(vec![
        Fragment::Switch(Switch::from(vec![vec![Fragment::Chunk(String::from("a"))]])),
        Fragment::Switch(Switch::from(vec![vec![Fragment::Chunk(String::from("a"))]])),
    ]);
    assert_eq!(p, p2);
    assert_eq!(p.count(), all(p).len());
    assert_eq!(all(p2), vec![String::from("aa"),]);
}

#[test]
fn chained_single_items_twice() {
    let p = Pattern::from_str("{a}{a}{a}").unwrap();
    let p2 = Pattern::from(vec![
        Fragment::Switch(Switch::from(vec![vec![Fragment::Chunk(String::from("a"))]])),
        Fragment::Switch(Switch::from(vec![vec![Fragment::Chunk(String::from("a"))]])),
        Fragment::Switch(Switch::from(vec![vec![Fragment::Chunk(String::from("a"))]])),
    ]);
    assert_eq!(p, p2);
    assert_eq!(p.count(), all(p).len());
    assert_eq!(all(p2), vec![String::from("aaa"),]);
}

#[test]
fn empty_switch() {
    let p = Pattern::from_str("{}").unwrap();
    let p2 = Pattern::from(vec![Fragment::Switch(Switch::from(vec![]))]);
    assert_eq!(p, p2);
    assert_eq!(p.count(), all(p).len());
    assert_eq!(all(p2), vec![String::new()]);
}

#[test]
fn pattern_optional_prefix() {
    let p = Pattern::from_str("{{a..b},}x").unwrap();
    let p2 = Pattern::from(vec![
        Fragment::Switch(Switch::from(vec![
            vec![Fragment::Switch(Switch::from(vec![
                vec![Fragment::Chunk(String::from("a"))],
                vec![Fragment::Chunk(String::from("b"))],
            ]))],
            vec![Fragment::Chunk(String::from(""))],
        ])),
        Fragment::Chunk(String::from("x")),
    ]);
    assert_eq!(p, p2);
    assert_eq!(p.count(), all(p).len());
    assert_eq!(
        all(p2),
        vec![String::from("ax"), String::from("bx"), String::from("x"),]
    );
}

#[test]
fn pattern_one_empty_chunk_right() {
    let p = Pattern::from_str("abc{x,y,}").unwrap();
    let p2 = Pattern::from(vec![
        Fragment::Chunk(String::from("abc")),
        Fragment::Switch(Switch::from(vec![
            vec![Fragment::Chunk(String::from("x"))],
            vec![Fragment::Chunk(String::from("y"))],
            vec![Fragment::Chunk(String::from(""))],
        ])),
    ]);
    assert_eq!(p, p2);
    assert_eq!(p.count(), all(p).len());
    assert_eq!(
        all(p2),
        vec![
            String::from("abcx"),
            String::from("abcy"),
            String::from("abc"),
        ]
    );
}

#[test]
fn pattern_one_empty_chunk_left() {
    let p = Pattern::from_str("abc{,x,y}").unwrap();
    let p2 = Pattern::from(vec![
        Fragment::Chunk(String::from("abc")),
        Fragment::Switch(Switch::from(vec![
            vec![Fragment::Chunk(String::from(""))],
            vec![Fragment::Chunk(String::from("x"))],
            vec![Fragment::Chunk(String::from("y"))],
        ])),
    ]);
    assert_eq!(p, p2);
    assert_eq!(p.count(), all(p).len());
    assert_eq!(
        all(p2),
        vec![
            String::from("abc"),
            String::from("abcx"),
            String::from("abcy"),
        ]
    );
}

#[test]
fn pattern_one_empty_chunk_center() {
    let p = Pattern::from_str("abc{x,,y}").unwrap();
    let p2 = Pattern::from(vec![
        Fragment::Chunk(String::from("abc")),
        Fragment::Switch(Switch::from(vec![
            vec![Fragment::Chunk(String::from("x"))],
            vec![Fragment::Chunk(String::from(""))],
            vec![Fragment::Chunk(String::from("y"))],
        ])),
    ]);
    assert_eq!(p, p2);
    assert_eq!(p.count(), all(p).len());
    assert_eq!(
        all(p2),
        vec![
            String::from("abcx"),
            String::from("abc"),
            String::from("abcy"),
        ]
    );
}

#[test]
fn pattern_numeric_range() {
    let p = Pattern::from_str("{0..9}").unwrap();
    let p2 = Pattern::from(vec![Fragment::Switch(Switch::from(vec![
        vec![Fragment::Chunk(String::from("0"))],
        vec![Fragment::Chunk(String::from("1"))],
        vec![Fragment::Chunk(String::from("2"))],
        vec![Fragment::Chunk(String::from("3"))],
        vec![Fragment::Chunk(String::from("4"))],
        vec![Fragment::Chunk(String::from("5"))],
        vec![Fragment::Chunk(String::from("6"))],
        vec![Fragment::Chunk(String::from("7"))],
        vec![Fragment::Chunk(String::from("8"))],
        vec![Fragment::Chunk(String::from("9"))],
    ]))]);
    assert_eq!(p, p2);
    assert_eq!(p.count(), all(p).len());
    assert_eq!(
        all(p2),
        vec![
            String::from("0"),
            String::from("1"),
            String::from("2"),
            String::from("3"),
            String::from("4"),
            String::from("5"),
            String::from("6"),
            String::from("7"),
            String::from("8"),
            String::from("9"),
        ]
    );
}

#[test]
fn numeric_range_errs() {
    assert!(Pattern::from_str("{..}").is_err());
    assert!(Pattern::from_str("{0..}").is_err());
    assert!(Pattern::from_str("{..0}").is_err());
    assert!(Pattern::from_str("{00..}").is_err());
    assert!(Pattern::from_str("{..00}").is_err());
    assert!(Pattern::from_str("{00..00}").is_err());
    assert!(Pattern::from_str("{.").is_err());
    assert!(Pattern::from_str("{..").is_err());
    assert!(Pattern::from_str("{...}").is_err());
    assert!(Pattern::from_str("{a...}").is_err());
}

fn count_and_all(s: &str) -> (usize, Vec<String>) {
    let p = Pattern::from_str(s).unwrap();
    let n = p.count();
    (n, all(p))
}

#[test]
fn literal_patterns_yield_one_combination() {
    assert_eq!(count_and_all("abc"), (1, vec![String::from("abc")]));
    assert_eq!(count_and_all(""), (1, vec![String::new()]));
}

#[test]
fn choice_pattern_in_order() {
    assert_eq!(
        count_and_all("abc{x,y,z}"),
        (3, vec![String::from("abcx"), String::from("abcy"), String::from("abcz")])
    );
}

#[test]
fn first_group_cycles_fastest() {
    let (n, v) = count_and_all("{x,y,z}{x,y,z}");
    assert_eq!(n, 9);
    let expected = ["xx", "yx", "zx", "xy", "yy", "zy", "xz", "yz", "zz"];
    assert_eq!(v, expected.iter().map(|s| s.to_string()).collect::<Vec<_>>());
}

#[test]
fn range_expands_in_ascending_order() {
    let (n, v) = count_and_all("{0..9}");
    assert_eq!(n, 10);
    let expected: Vec<String> = (0..10).map(|d| d.to_string()).collect();
    assert_eq!(v, expected);
    let (n, v) = count_and_all("x{a..c}");
    assert_eq!(n, 3);
    assert_eq!(v, vec![String::from("xa"), String::from("xb"), String::from("xc")]);
}

#[test]
fn malformed_ranges_fail() {
    for s in ["{..}", "{0..}", "{..0}", "{00..}", "{..00}", "{00..00}", "{...}"] {
        assert!(Pattern::from_str(s).is_err(), "{}", s);
    }
}

#[test]
fn empty_alternatives_are_kept() {
    assert_eq!(count_and_all("abc{x,y,}").1, vec!["abcx", "abcy", "abc"]);
    assert_eq!(count_and_all("abc{,x,y}").1, vec!["abc", "abcx", "abcy"]);
    assert_eq!(count_and_all("abc{x,,y}").1, vec!["abcx", "abc", "abcy"]);
}

#[test]
fn escaped_characters_are_literal() {
    let (n, v) = count_and_all(r"\\\{a\,b\}\.\.");
    assert_eq!(n, 1);
    assert_eq!(v, vec![String::from("\\{a,b}..")]);
    let (n, v) = count_and_all(r"{a\,b,c\}}");
    assert_eq!(n, 2);
    assert_eq!(v, vec![String::from("a,b"), String::from("c}")]);
}

#[test]
fn count_matches_enumeration() {
    for s in [
        "", "abc", "{}", "{}{a,b}", "{,}", "a{b,c{x,y},d}", "{{{a,b,c},x},y}", "{a..e}{0..3}{x,{y,z}}",
        "{{a..b},,}x", "{a}{a}{a}",
    ] {
        let (n, v) = count_and_all(s);
        assert_eq!(n, v.len(), "{}", s);
    }
}

#[test]
fn empty_group_counts_once() {
    let p = Pattern::from_str("{}").unwrap();
    assert_eq!(p.count(), 1);
    assert_eq!(count_and_all("a{}b"), (1, vec![String::from("ab")]));
}

#[test]
fn render_twice_gives_the_same_text() {
    let mut p = Pattern::from_str("a{x,y}{1..3}").unwrap();
    let mut first = String::new();
    let mut second = String::new();
    p.render(&mut first).unwrap();
    p.render(&mut second).unwrap();
    assert_eq!(first, "ax1");
    assert_eq!(first, second);
    assert!(!p.advance());
    let mut third = String::from(">");
    p.render(&mut third).unwrap();
    assert_eq!(third, ">ay1");
}

#[test]
fn exhaustion_does_not_restart() {
    let mut p = Pattern::from_str("{a,b}").unwrap();
    let mut out = String::new();
    assert_eq!(p.render(&mut out).map(|s| s.clone()), Some(String::from("a")));
    assert!(!p.advance());
    assert!(p.advance());
    assert!(p.done);
    let mut out = String::new();
    assert!(p.render(&mut out).is_none());
    assert_eq!(out, "");
    assert!(p.advance());
    assert!(p.next_owned().is_none());
    assert!(p.next(&mut out).is_none());
}

#[test]
fn next_appends_to_the_buffer() {
    let mut p = Pattern::from_str("{a,b}").unwrap();
    let mut out = String::from("x");
    let r = p.next(&mut out).unwrap();
    r.push('!');
    assert_eq!(out, "xa!");
}

#[test]
fn bump_reports_wrap_and_keeps_flag() {
    let mut p = Pattern::from_str("{a,b}{c,d}").unwrap();
    assert!(!p.bump());
    assert!(!p.bump());
    assert!(!p.bump());
    assert!(p.bump());
    assert!(!p.done);
    assert_eq!(p, Pattern::from_str("{a,b}{c,d}").unwrap());
}

#[test]
fn switch_bump_and_render() {
    let mut sw = Switch::from(vec![
        vec![Fragment::Chunk(String::from("x"))],
        vec![Fragment::Switch(Switch::from(vec![
            vec![Fragment::Chunk(String::from("y"))],
            vec![Fragment::Chunk(String::from("z"))],
        ]))],
    ]);
    assert_eq!(sw.count(), 3);
    let mut seen = Vec::new();
    loop {
        let mut out = String::new();
        sw.next(&mut out);
        seen.push(out);
        if sw.bump() {
            break;
        }
    }
    assert_eq!(seen, vec!["x", "y", "z"]);
    let empty = Switch::from(vec![]);
    assert_eq!(empty.count(), 1);
}

#[test]
fn switch_builder_steps() {
    let mut sw = Switch::new();
    sw.push(Fragment::Chunk(String::from("a")));
    sw.push(Fragment::Chunk(String::from("b")));
    sw.bump_write_cursor();
    sw.push(Fragment::Chunk(String::from("c")));
    assert_eq!(sw.write_cursor, 1);
    sw.reset();
    assert_eq!(sw.write_cursor, 0);
    assert_eq!(
        sw,
        Switch::from(vec![
            vec![Fragment::Chunk(String::from("a")), Fragment::Chunk(String::from("b"))],
            vec![Fragment::Chunk(String::from("c"))],
        ])
    );
    let mut gap = Switch::new();
    gap.bump_write_cursor();
    gap.bump_write_cursor();
    gap.push(Fragment::Chunk(String::from("z")));
    assert_eq!(gap.options.len(), 3);
    assert!(gap.options[0].is_empty() && gap.options[1].is_empty());
}

#[test]
fn large_counts_are_checked() {
    let big = "{0..9}".repeat(25);
    let p = Pattern::from_str(&big).unwrap();
    assert_eq!(p.checked_count(), None);
    let fits = "{0..9}".repeat(19);
    let q = Pattern::from_str(&fits).unwrap();
    assert_eq!(q.checked_count(), Some(10_000_000_000_000_000_000usize));
    assert_eq!(Pattern::from_str("{a,b}{a..c}").unwrap().checked_count(), Some(6));
}

#[test]
fn parse_errors_reach_the_pattern() {
    assert_eq!(Pattern::from_str("a}").unwrap_err(), ParseError::UnmatchedCloseBrace);
    assert_eq!(Pattern::from_str("{a").unwrap_err(), ParseError::UnmatchedOpenBrace);
    assert_eq!(Pattern::from_str("{b..a}").unwrap_err(), ParseError::RangeNotAscending);
}

#[test]
fn from_str_trait_matches_inherent() {
    let p: Pattern = "a{b,c}".parse().unwrap();
    assert_eq!(p, Pattern::from_str("a{b,c}").unwrap());
    assert!("{a".parse::<Pattern>().is_err());
}

#[test]
fn escaped_text_builds_one_chunk() {
    let p = Pattern::from_str(r"\{\,\}\.\.\\").unwrap();
    assert_eq!(p, Pattern::from(vec![Fragment::Chunk(String::from(r"{,}..\"))]));
    assert_eq!(Pattern::from_str("").unwrap(), Pattern::from(vec![]));
}
