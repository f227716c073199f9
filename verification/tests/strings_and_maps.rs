use east::fetch_git2::{sanitize_url, Git2Fetcher};
use east::name_map::NameMap;
use east::paths::{join_from, path_components, path_join};
use east::pattern::{replace_all, split_char, trim_char, trim_prefix, trim_suffix};
use east::text::{parse_u64, str_eq, str_lt, u64_to_decimal};
use east::url_ops::{url_host, url_join, url_path};

#[test]
fn name_map_keeps_names_sorted_and_unique() {
    let mut m: NameMap<u32> = NameMap::new();
    assert!(m.is_empty());
    assert_eq!(m.insert("zephyr".to_string(), 1), None);
    assert_eq!(m.insert("cmsis".to_string(), 2), None);
    assert_eq!(m.insert("hal_nordic".to_string(), 3), None);
    assert_eq!(m.len(), 3);
    let names: Vec<&str> = (0..m.len()).map(|i| m.key_at(i).as_str()).collect();
    assert_eq!(names, vec!["cmsis", "hal_nordic", "zephyr"]);
    // Inserting an existing name replaces its value and gives back the old one.
    assert_eq!(m.insert("cmsis".to_string(), 20), Some(2));
    assert_eq!(m.len(), 3);
    assert_eq!(m.get("cmsis"), Some(&20));
    assert_eq!(m.get("zephyr"), Some(&1));
    assert_eq!(m.get("missing"), None);
    assert!(m.contains_key("hal_nordic"));
    assert_eq!(m.find("zephyr"), Some(2));
    assert_eq!(m.replace_at(0, 7), 20);
    assert_eq!(m.value_at(0), &7);
}

#[test]
fn name_map_push_last_appends() {
    let mut m: NameMap<()> = NameMap::new();
    m.push_last("a".to_string(), ());
    m.push_last("b".to_string(), ());
    assert_eq!(m.len(), 2);
    assert_eq!(m.key_at(1), "b");
}

#[test]
fn string_order_is_by_scalar_value() {
    assert!(str_lt("abc", "abd"));
    assert!(str_lt("ab", "abc"));
    assert!(!str_lt("abc", "abc"));
    assert!(str_lt("Z", "a"));
    assert!(str_eq("west.yml", "west.yml"));
    assert!(!str_eq("west.yml", "west.yaml"));
}

#[test]
fn decimal_rendering() {
    assert_eq!(u64_to_decimal(0), "0");
    assert_eq!(u64_to_decimal(60), "60");
    assert_eq!(u64_to_decimal(u64::MAX), "18446744073709551615");
}

#[test]
fn decimal_parsing_follows_from_str() {
    assert_eq!(parse_u64("0"), Some(0));
    assert_eq!(parse_u64("42"), Some(42));
    assert_eq!(parse_u64("+7"), Some(7));
    assert_eq!(parse_u64("007"), Some(7));
    assert_eq!(parse_u64("18446744073709551615"), Some(u64::MAX));
    assert_eq!(parse_u64("18446744073709551616"), None);
    assert_eq!(parse_u64(""), None);
    assert_eq!(parse_u64("+"), None);
    assert_eq!(parse_u64("-1"), None);
    assert_eq!(parse_u64(" 1"), None);
    assert_eq!(parse_u64("12a"), None);
    for s in ["0", "42", "+7", "", "x", "99999999999999999999"] {
        assert_eq!(parse_u64(s), s.parse::<u64>().ok());
    }
}

#[test]
fn replace_matches_str_replace() {
    for (s, from, to) in [
        ("https://github.com/a/b", "://", "_"),
        ("aaaa", "aa", "b"),
        ("a/b//c/", "/", "_"),
        ("", "x", "y"),
        ("abc", "abcd", "z"),
    ] {
        assert_eq!(replace_all(s, from, to), s.replace(from, to));
    }
}

#[test]
fn trimming_matches_str_methods() {
    assert_eq!(trim_char("//owner/repo/", '/'), "owner/repo");
    assert_eq!(trim_char("////", '/'), "");
    assert_eq!(trim_prefix("././west.yml", "./"), "west.yml");
    assert_eq!(trim_prefix("west.yml", "./"), "west.yml");
    assert_eq!(trim_suffix("repo.git.git", ".git"), "repo");
    assert_eq!(trim_suffix("repo", ".git"), "repo");
    assert_eq!(trim_suffix(".git", ".git"), "");
}

#[test]
fn split_matches_str_split() {
    for s in ["a/b", "a//b", "", "/", "owner/repo.git/tree"] {
        let expected: Vec<String> = s.split('/').map(|p| p.to_string()).collect();
        assert_eq!(split_char(s, '/'), expected);
    }
}

#[test]
fn sanitized_url_has_no_separators() {
    let s = sanitize_url("https://github.com/zephyrproject-rtos/zephyr.git");
    assert_eq!(s, "https_github.com_zephyrproject-rtos_zephyr.git");
    let s = sanitize_url("ssh://git@host:22/a/b");
    assert_eq!(s, "ssh_git@host_22_a_b");
    assert!(!s.contains('/') && !s.contains(':'));
}

#[test]
fn repo_cache_path_is_under_cache_dir() {
    let f = Git2Fetcher::new("/tmp/cache");
    assert_eq!(f.cache_dir, "/tmp/cache");
    assert_eq!(f.repo_cache_path("https://github.com/a/b"), "/tmp/cache/https_github.com_a_b");
    let f = Git2Fetcher::new("cache/");
    assert_eq!(f.repo_cache_path("https://x.org/r"), "cache/https_x.org_r");
}

#[test]
fn path_operations_follow_std() {
    assert_eq!(path_join("/etc", "passwd"), "/etc/passwd");
    assert_eq!(path_join("/etc/", "passwd"), "/etc/passwd");
    assert_eq!(path_join("", "a"), "a");
    assert_eq!(path_components("./a//b/."), vec![".", "a", "b"]);
    assert_eq!(path_components("/a/../b/"), vec!["/", "a", "..", "b"]);
    assert_eq!(path_components("owner-repo-123/scripts/west.yml"), vec!["owner-repo-123", "scripts", "west.yml"]);
    let parts = vec!["top".to_string(), "a".to_string(), "b".to_string()];
    assert_eq!(join_from(&parts, 1, "/"), "a/b");
    assert_eq!(join_from(&parts, 3, "/"), "");
}

#[test]
fn url_operations_follow_the_url_crate() {
    assert_eq!(
        url_join("https://github.com/zephyrproject-rtos/", "zephyr"),
        Some("https://github.com/zephyrproject-rtos/zephyr".to_string())
    );
    assert_eq!(url_join("https://github.com/org", "repo"), Some("https://github.com/repo".to_string()));
    assert_eq!(url_join("mailto:someone@example.com", "repo"), None);
    assert_eq!(url_join("not a url", "repo"), None);
    assert_eq!(url_host("https://github.com/a/b"), Some(Some("github.com".to_string())));
    assert_eq!(url_host("mailto:someone@example.com"), Some(None));
    assert_eq!(url_host("::"), None);
    assert_eq!(url_path("https://github.com/a/b.git"), Some("/a/b.git".to_string()));
}
