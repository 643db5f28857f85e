//! Text, numbers, order and paths, held against the standard library.

use listener::{number, order, path, pieces, text};

/// All texts of at most `len` characters out of `alphabet`.
fn texts(alphabet: &[char], len: usize) -> Vec<String> {
    let mut all = vec![String::new()];
    let mut last = vec![String::new()];
    for _ in 0..len {
        let mut next = Vec::new();
        for s in &last {
            for c in alphabet {
                let mut t = s.clone();
                t.push(*c);
                next.push(t);
            }
        }
        all.extend(next.iter().cloned());
        last = next;
    }
    all
}

#[test]
fn white_space_is_that_of_char() {
    for n in 0..=0x10ffffu32 {
        if let Some(c) = char::from_u32(n) {
            assert_eq!(text::white_space(c), c.is_whitespace(), "{n:x}");
        }
    }
}

#[test]
fn trimming_and_words_are_those_of_str() {
    for s in texts(&['a', ' ', '\u{2003}', '#', '\t'], 6) {
        assert_eq!(text::trim(&s), s.trim());
        assert_eq!(text::blank(&s), s.trim().is_empty());
        let words: Vec<String> = s.split_whitespace().map(|w| w.to_string()).collect();
        assert_eq!(text::split_words(&s), words);
    }
}

#[test]
fn searching_is_that_of_str() {
    let parts = texts(&['a', '.'], 3);
    for s in texts(&['a', '.', 'b'], 6) {
        let chars = text::chars_of(&s);
        for p in &parts {
            let part = text::chars_of(p);
            assert_eq!(text::contains(&chars, &part), s.contains(p.as_str()));
        }
        assert_eq!(text::has_char(&chars, 'b'), s.contains('b'));
    }
}

#[test]
fn head_counts_characters() {
    assert_eq!(text::head("h\u{e9}llo", 2), "h\u{e9}");
    assert_eq!(text::head("hi", 5), "hi");
    assert_eq!(text::head("hi", 0), "");
}

#[test]
fn pieces_are_those_of_split() {
    for s in texts(&['a', '/'], 7) {
        let list: Vec<String> = pieces::split_chars(&s.chars().collect(), '/')
            .iter()
            .map(|p| p.iter().collect())
            .collect();
        let expected: Vec<String> = s.split('/').map(|p| p.to_string()).collect();
        assert_eq!(list, expected);
    }
}

#[test]
fn numbers_are_read_like_u64() {
    for s in texts(&['0', '7', '+', '-', ' ', 'x'], 5) {
        assert_eq!(number::parse(&s), s.parse::<u64>().ok(), "{s:?}");
    }
    let edges = [
        "18446744073709551615",
        "18446744073709551616",
        "+18446744073709551615",
        "000000000000000000000000000042",
        "99999999999999999999",
        "184467440737095516150",
    ];
    for s in edges {
        assert_eq!(number::parse(s), s.parse::<u64>().ok(), "{s}");
    }
}

#[test]
fn decimal_notation_is_read_back() {
    for n in [0, 7, 10, 99, 100, 480, u64::MAX - 1, u64::MAX] {
        assert_eq!(number::decimal_of(n), n.to_string());
        assert_eq!(number::parse(&number::decimal_of(n)), Some(n));
    }
}

#[test]
fn sorting_ranks_and_stable_order() {
    let mut seed: u64 = 42;
    for len in 0..60usize {
        let mut keys: Vec<u64> = Vec::new();
        for _ in 0..len {
            seed = seed.wrapping_mul(6364136223846793005).wrapping_add(1442695040888963407);
            keys.push(if seed % 3 == 0 { seed >> 62 } else { seed });
        }
        let mut expected: Vec<usize> = (0..len).collect();
        expected.sort_by_key(|i| keys[*i]);
        assert_eq!(order::stable_order(&keys), expected);

        let wide: Vec<u128> = keys.iter().map(|k| *k as u128).collect();
        let mut sorted = wide.clone();
        sorted.sort();
        assert_eq!(order::sorted(&wide), sorted);

        let narrow: Vec<u32> = keys.iter().map(|k| (*k >> 40) as u32).collect();
        let mut ranked = narrow.clone();
        ranked.sort();
        for k in 0..len {
            assert_eq!(order::kth_smallest(&narrow, k), ranked[k]);
        }
    }
}

#[test]
fn paths_are_those_of_std() {
    let bases = texts(&['a', '.', '/'], 4);
    let names = texts(&['a', '.', '/'], 4);
    for base in &bases {
        let p = std::path::Path::new(base);
        let components: Vec<String> =
            p.components().map(|c| c.as_os_str().to_str().unwrap().to_string()).collect();
        assert_eq!(path::split(base), components, "{base}");
        assert_eq!(
            path::file_name(base),
            p.file_name().map(|n| n.to_str().unwrap().to_string()),
            "{base}"
        );
        assert_eq!(
            path::parent(base).map(|d| std::path::PathBuf::from(d)),
            p.parent().map(|d| d.to_path_buf()),
            "{base}"
        );
        assert_eq!(path::climbs(base), components.iter().any(|c| c == ".."), "{base}");
        for name in &names {
            assert_eq!(path::join(base, name), p.join(name).to_str().unwrap());
            assert_eq!(
                path::within(base, name),
                std::path::Path::new(name).starts_with(p),
                "{base} {name}"
            );
        }
    }
}

#[test]
fn joining_a_plain_name_gives_a_file_in_the_directory() {
    let joined = path::join("/opt/matt-voice", "1-matt.flac");
    assert_eq!(joined, "/opt/matt-voice/1-matt.flac");
    assert!(path::within("/opt/matt-voice", &joined));
    assert_eq!(path::file_name(&joined), Some("1-matt.flac".to_string()));
    assert_eq!(path::join("/opt", "/etc/passwd"), "/etc/passwd");
    assert!(!path::within("/opt/matt", "/opt/matt-voice"));
}
