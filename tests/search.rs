use algorithms::search::{kmp_search, rabin_karp_search};

#[test]
fn test_search() {
    for &(string, substring, result) in &[
        (
            "testwafwafawfawfawfawfawfawfawfa",
            "fawfawfawfawfa",
            Some(9),
        ),
        (
            "tesseatesgawatewtesaffawgfawtteafawtesftawfawfawfwfawftest",
            "test",
            Some(54),
        ),
        ("aaabaabacdedfaabaabaaa", "aaabaabacdedfaabaabaaa", Some(0)),
        ("abxabcabcaby", "abcaby", Some(6)),
        ("decadaafcdf", "daf", None),
        ("aefoaefcdaefcdaed", "aefcdaed", Some(9)),
        (
            "testwherethefullstringmatches",
            "testwherethefullstringmatchees",
            None,
        ),
        (
            "asfd oaisdufkhasdgfisdfghaskfyaeiurnfkfabcdefaksjfhksjdfhk",
            "abcd",
            Some(39),
        ),
        (
            "GATACCCATtesseatesgawatewtesaffawgfawtteafawtesftawfawfawfwfawftestCGAGTCGGATCGAGT aaabaabacdedfaabaabaaaoaisdufkhasdgfisdfghaskfyaeiurnfkfabcdefaksjfhksjdfhk",
            "oaisdufkhasdgfisdfghaskfyaeiurnfkfabcdefaksjfhksjdfhk",
            Some(105),
        ),
    ] {
        assert_eq!(kmp_search(string, substring), result);
        assert_eq!(rabin_karp_search(string, substring), result);
    }
}

#[test]
fn search_edge_cases() {
    for search in [kmp_search, rabin_karp_search] {
        assert_eq!(search("", "a"), None);
        assert_eq!(search("abc", ""), None);
        assert_eq!(search("ab", "abc"), None);
        assert_eq!(search("aaaa", "aa"), Some(0));
        assert_eq!(search("abababc", "ababc"), Some(2));
        assert_eq!(search("xyz", "z"), Some(2));
        // byte offsets, not character offsets
        assert_eq!(search("éa", "a"), Some(2));
    }
}
